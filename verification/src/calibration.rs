//! The calibration engine.
//!
//! Given target regions and a mode, the engine measures observed coverage,
//! derives an exact keep-probability per region, and walks the reads of each
//! region deciding, once per read-pair name, whether the pair is kept. The
//! random draws come from a generator seeded once per invocation, so the
//! whole decision is a function of the inputs and the seed. A final pass
//! writes every record whose name was kept, and, unless uncalibrated reads
//! are excluded, every record whose mate lies outside the calibrated
//! contigs.

use crate::coverage::coverage_for_region;
use crate::coverage::is_first_tid;
use crate::coverage::spec_tid;
use crate::errors::Error;
use crate::names::assoc;
use crate::names::assoc_get;
use crate::names::pair_views;
use crate::names::NameSet;
use crate::records::in_region;
use crate::records::is_duplicate;
use crate::records::views;
use crate::records::AlignmentData;
use crate::records::Contig;
use crate::records::Rec;
use crate::records::RecView;
use crate::region::Region;
use crate::rng::chosen_of;
use crate::rng::pcg32_u64;
use crate::rng::SeededRng;
use crate::wide::mul_le;
use crate::wide::TWO64;
use vstd::prelude::*;
use vstd::string::*;

verus! {

/// An exact keep-probability: the rational `num / den`, at most one.
#[derive(Clone, Copy, Debug, PartialEq, Eq, Structural)]
pub struct Prob {
    pub num: u128,
    pub den: u128,
}

impl Prob {
    /// The probability is a well-formed rational in `[0, 1]`.
    pub open spec fn wf(&self) -> bool {
        0 < self.den && self.num <= self.den
    }
}

/// The observed coverage of a region: total depth summed over `len`
/// positions, so the mean is `total / len`.
#[derive(Clone, Copy, Debug, PartialEq, Eq, Structural)]
pub struct Cov {
    pub total: u64,
    pub len: u64,
}

/// How the engine chooses which read-pairs to keep.
pub enum CalibrationMode {
    /// Calibrate every target region to a fixed fold coverage.
    FixedCoverage { fold_coverage: u64, seed: u64 },
    /// Calibrate each target region to the mean coverage of the sample
    /// region with the same name.
    SampleMeanCoverage { sample_regions: Vec<Region>, seed: u64 },
    /// Reproduce each name-matched sample region's windowed read-start
    /// profile in the target region, in reverse window order.
    SampleProfile {
        sample_regions: Vec<Region>,
        flank: u64,
        window_size: u64,
        min_mapq: u8,
        seed: u64,
    },
}

/// An error of the calibration rules, carrying its message.
#[derive(Debug)]
pub struct CalibrateError {
    details: String,
}

impl CalibrateError {
    /// The message carried by the error.
    pub closed spec fn message(&self) -> Seq<char> {
        self.details@
    }

    /// Wraps a message.
    pub fn new(msg: &str) -> (e: CalibrateError)
        ensures
            e.message() == msg@,
    {
        CalibrateError { details: String::from_str(msg) }
    }

    /// The message.
    pub fn to_string(&self) -> (s: String)
        ensures
            s@ == self.message(),
    {
        self.details.clone()
    }
}

/// Whether a uniform 64-bit draw `u`, read as the rational `u / 2^64`, does
/// not exceed the keep-probability.
pub open spec fn keep_draw(u: u64, p: Prob) -> bool {
    u * p.den <= p.num * 0x1_0000_0000_0000_0000
}

/// Decides `keep_draw` exactly.
pub fn draw_keeps(u: u64, p: Prob) -> (b: bool)
    ensures
        b == keep_draw(u, p),
{
    mul_le(u as u128, p.den, p.num, TWO64)
}

/// The engine's sampling state: the names kept, the names already
/// considered, and how many draws were taken.
pub ghost struct ScanState {
    pub keep: Set<Seq<char>>,
    pub considered: Set<Seq<char>>,
    pub drawn: nat,
}

/// One sampling decision over a record, as the engine makes it: a duplicate
/// is dropped; a name already kept stays kept (the mate of an accepted read);
/// a name already considered stays dropped; otherwise one draw decides, and
/// the name joins the keep set exactly when the draw passes.
pub open spec fn subsample_step(st: ScanState, r: RecView, p: Prob, seed: u64) -> (ScanState, bool) {
    if is_duplicate(r) {
        (st, false)
    } else if st.keep.contains(r.qname) {
        (st, true)
    } else if st.considered.contains(r.qname) {
        (st, false)
    } else {
        let kept = keep_draw(pcg32_u64(seed, st.drawn), p);
        (
            ScanState {
                keep: if kept {
                    st.keep.insert(r.qname)
                } else {
                    st.keep
                },
                considered: st.considered,
                drawn: st.drawn + 1,
            },
            kept,
        )
    }
}

/// The engine's sampling state made of the given parts.
pub open spec fn scan_state(keep: Set<Seq<char>>, considered: Set<Seq<char>>, drawn: nat) -> ScanState {
    ScanState { keep, considered, drawn }
}

/// Decides whether to keep the record's read-pair, mutating the keep set and
/// the generator exactly as [`subsample_step`] says.
pub fn subsample(
    rec: &Rec,
    keep: &mut NameSet,
    considered: &NameSet,
    prob: Prob,
    rng: &mut SeededRng,
) -> (kept: bool)
    requires
        old(rng).drawn() < u128::MAX,
    ensures
        ({
            let st0 = scan_state(old(keep)@, considered@, old(rng).drawn() as nat);
            let (st1, k) = subsample_step(st0, rec@, prob, old(rng).seed());
            &&& kept == k
            &&& final(keep)@ == st1.keep
            &&& final(rng).drawn() as nat == st1.drawn
            &&& final(rng).seed() == old(rng).seed()
        }),
{
    if rec.duplicate_flag() {
        return false;
    }
    if keep.contains(rec.qname.as_str()) {
        return true;
    }
    if considered.contains(rec.qname.as_str()) {
        return false;
    }
    let u = rng.next_u64();
    if draw_keeps(u, prob) {
        keep.insert(rec.qname.clone());
        true
    } else {
        false
    }
}

/// Whether the mean coverage of `r` can be measured: the region is non-empty
/// and its contig is in the header.
pub open spec fn cov_ok(contigs: Seq<Contig>, r: Region) -> bool {
    &&& crate::region::flank_ok(r, 0)
    &&& exists|t: int| is_first_tid(contigs, r.contig@, t)
}

/// The observed coverage of `r`: total depth over `[beg, end)` at mapping
/// quality zero, paired with the region's length.
pub open spec fn spec_cov(recs: Seq<RecView>, contigs: Seq<Contig>, r: Region) -> Cov {
    Cov {
        total: crate::coverage::depth_sum(
            recs,
            spec_tid(contigs, r.contig@),
            r.beg as int,
            r.end - r.beg,
            0,
        ) as u64,
        len: (r.end - r.beg) as u64,
    }
}

/// Each region's name paired with its observed coverage, in region order.
pub open spec fn cov_pairs(recs: Seq<RecView>, contigs: Seq<Contig>, regions: Seq<Region>) -> Seq<
    (Seq<char>, Cov),
> {
    regions.map_values(|r: Region| (r.name@, spec_cov(recs, contigs, r)))
}

/// Every region is short enough for its depth total to stay within bounds.
pub open spec fn regions_small(regions: Seq<Region>) -> bool {
    forall|i: int|
        0 <= i < regions.len() ==> (#[trigger] regions[i]).end - regions[i].beg < 0x1_0000_0000
}

/// Measures the mean coverage of each region at mapping quality zero and no
/// flank, returning each region's name with its coverage, in order.
///
/// Fails on the first empty region or missing contig, with that region's
/// message.
#[verifier::loop_isolation(false)]
pub fn regions_coverage(data: &AlignmentData, regions: &[Region]) -> (res: Result<
    Vec<(String, Cov)>,
    Error,
>)
    requires
        data.wf(),
        data.records@.len() <= u32::MAX,
        regions_small(regions@),
    ensures
        res is Ok <==> (forall|i: int| 0 <= i < regions@.len() ==> cov_ok(
            data.contigs@,
            #[trigger] regions@[i],
        )),
        res matches Ok(v) ==> pair_views(v@) == cov_pairs(data.recs(), data.contigs@, regions@),
        res matches Ok(v) ==> forall|i: int|
            0 <= i < v@.len() ==> (#[trigger] v@[i]).1.len > 0,
        res matches Err(e) ==> exists|i: int|
            {
                &&& 0 <= i < regions@.len()
                &&& !cov_ok(data.contigs@, #[trigger] regions@[i])
                &&& forall|j: int| 0 <= j < i ==> cov_ok(data.contigs@, #[trigger] regions@[j])
                &&& (e matches Error::Bedcov { msg } && msg@ == (if !crate::region::flank_ok(
                    regions@[i],
                    0,
                ) {
                    crate::region::flank_err_text(regions@[i], 0)
                } else {
                    crate::coverage::missing_contig_text(regions@[i].contig@)
                }))
            },
{
    let mut out: Vec<(String, Cov)> = Vec::new();
    let mut i: usize = 0;
    assert(pair_views(out@) =~~= cov_pairs(data.recs(), data.contigs@, regions@.take(0)));
    while i < regions.len()
        invariant
            0 <= i <= regions@.len(),
            forall|j: int| 0 <= j < i ==> cov_ok(data.contigs@, #[trigger] regions@[j]),
            pair_views(out@) == cov_pairs(data.recs(), data.contigs@, regions@.take(i as int)),
            forall|j: int| 0 <= j < out@.len() ==> (#[trigger] out@[j]).1.len > 0,
        decreases regions@.len() - i,
    {
        let r = &regions[i];
        let cov = match coverage_for_region(data, r, 0, 0) {
            Ok(c) => c,
            Err(e) => {
                return Err(e);
            },
        };
        let total128 = crate::stats::sum_vec(&cov.coverage);
        proof {
            let t = choose|t: int| is_first_tid(data.contigs@, r.contig@, t);
            crate::coverage::lemma_first_tid_unique(
                data.contigs@,
                r.contig@,
                t,
                spec_tid(data.contigs@, r.contig@),
            );
            crate::coverage::lemma_depth_sum(
                cov.coverage@,
                data.recs(),
                spec_tid(data.contigs@, r.contig@),
                r.beg as int,
                0,
            );
            crate::stats::lemma_sum_bounds(cov.coverage@);
            assert(cov.coverage@.len() * 0xFFFF_FFFF < 0x1_0000_0000_0000_0000)
                by (nonlinear_arith)
                requires cov.coverage@.len() < 0x1_0000_0000;
        }
        let total = total128 as u64;
        let len = r.end - r.beg;
        let ghost prev = out@;
        out.push((r.name.clone(), Cov { total, len }));
        proof {
            let a = pair_views(out@);
            let b = cov_pairs(data.recs(), data.contigs@, regions@.take(i as int + 1));
            assert(out@[i as int].1 == spec_cov(data.recs(), data.contigs@, regions@[i as int]));
            assert forall|j: int| 0 <= j < a.len() implies a[j] == b[j] by {
                if j < i as int {
                    assert(a[j] == pair_views(prev)[j]);
                    assert(b[j] == cov_pairs(
                        data.recs(),
                        data.contigs@,
                        regions@.take(i as int),
                    )[j]);
                }
            }
            assert(a =~= b);
        }
        i = i + 1;
    }
    assert(regions@.take(regions@.len() as int) =~= regions@);
    Ok(out)
}

/// Whether the per-name checks pass for a target region with coverage `t`:
/// a sample coverage exists under the region's name, the target's observed
/// mean is non-zero, and it is at least the sample mean.
pub open spec fn check_ok(t: Cov, spairs: Seq<(Seq<char>, Cov)>, name: Seq<char>) -> bool {
    match assoc(spairs, name) {
        Some(s) => t.total > 0 && s.total * t.len <= t.total * s.len,
        None => false,
    }
}

/// The message reported when the per-name checks fail.
pub open spec fn check_err_text(t: Cov, spairs: Seq<(Seq<char>, Cov)>, name: Seq<char>) -> Seq<
    char,
> {
    if assoc(spairs, name) is None {
        "No sample mean coverage found for target region "@ + name
    } else if t.total == 0 {
        "Target mean coverage for region "@ + name + " is zero"@
    } else {
        "Target mean coverage for region "@ + name + " is less than sample mean coverage"@
    }
}

/// The sample-side coverage pairs: the sample regions' coverages when a
/// sample set is given, else the fixed fold coverage under every target
/// name.
pub open spec fn sample_pairs(
    recs: Seq<RecView>,
    contigs: Seq<Contig>,
    targets: Seq<Region>,
    samples: Option<Seq<Region>>,
    fold_coverage: u64,
) -> Seq<(Seq<char>, Cov)> {
    match samples {
        Some(s) => cov_pairs(recs, contigs, s),
        None => targets.map_values(|r: Region| (r.name@, Cov { total: fold_coverage, len: 1 })),
    }
}

/// The view of an optional region list.
pub open spec fn opt_regions(o: Option<&[Region]>) -> Option<Seq<Region>> {
    match o {
        Some(s) => Some(s@),
        None => None,
    }
}

/// The probability assigned to target region `r`: the sample mean over the
/// target mean, as an exact rational.
pub open spec fn prob_of(t: Cov, s: Cov) -> Prob {
    Prob { num: (s.total * t.len) as u128, den: (t.total * s.len) as u128 }
}

/// Derives the keep-probability of every target region: the name-matched
/// sample mean (or the fixed fold coverage) over the target's observed mean.
///
/// Fails when a region cannot be measured, when a target region has no
/// sample coverage under its name, when a target's observed mean is zero,
/// or when it is below the sample mean (the engine never upsamples); each
/// error names the offending region. On success the probability of every
/// target lies in `(0, 1]`.
#[verifier::loop_isolation(false)]
pub fn determine_downsampling_probabilities(
    data: &AlignmentData,
    target_regions: &[Region],
    sample_regions: Option<&[Region]>,
    fold_coverage: u64,
) -> (res: Result<Vec<(String, Prob)>, Error>)
    requires
        data.wf(),
        data.records@.len() <= u32::MAX,
        regions_small(target_regions@),
        match sample_regions {
            Some(s) => regions_small(s@),
            None => true,
        },
    ensures
        ({
            let recs = data.recs();
            let contigs = data.contigs@;
            let spairs = sample_pairs(
                recs,
                contigs,
                target_regions@,
                opt_regions(sample_regions),
                fold_coverage,
            );
            let covs_ok = (forall|i: int| 0 <= i < target_regions@.len() ==> cov_ok(
                contigs,
                #[trigger] target_regions@[i],
            )) && (match sample_regions {
                Some(s) => forall|i: int| 0 <= i < s@.len() ==> cov_ok(contigs, #[trigger] s@[i]),
                None => true,
            });
            &&& (res is Ok <==> (covs_ok && forall|i: int|
                0 <= i < target_regions@.len() ==> check_ok(
                    spec_cov(recs, contigs, #[trigger] target_regions@[i]),
                    spairs,
                    target_regions@[i].name@,
                )))
            &&& (res matches Ok(v) ==> {
                &&& v@.len() == target_regions@.len()
                &&& forall|i: int|
                    0 <= i < v@.len() ==> {
                        let r = target_regions@[i];
                        let t = spec_cov(recs, contigs, r);
                        &&& (#[trigger] v@[i]).0@ == r.name@
                        &&& v@[i].1 == prob_of(t, assoc(spairs, r.name@)->Some_0)
                        &&& v@[i].1.wf()
                    }
            })
            &&& ((res is Err && covs_ok) ==> exists|i: int|
                {
                    let r = #[trigger] target_regions@[i];
                    let t = spec_cov(recs, contigs, r);
                    &&& 0 <= i < target_regions@.len()
                    &&& !check_ok(t, spairs, r.name@)
                    &&& forall|j: int| 0 <= j < i ==> check_ok(
                        spec_cov(recs, contigs, #[trigger] target_regions@[j]),
                        spairs,
                        target_regions@[j].name@,
                    )
                    &&& (res->Err_0 matches Error::Calibration { msg } && msg@ == check_err_text(
                        t,
                        spairs,
                        r.name@,
                    ))
                })
        }),
{
    proof {
        reveal_strlit("No sample mean coverage found for target region ");
        reveal_strlit("Target mean coverage for region ");
        reveal_strlit(" is zero");
        reveal_strlit(" is less than sample mean coverage");
    }
    let ghost spairs = sample_pairs(
        data.recs(),
        data.contigs@,
        target_regions@,
        opt_regions(sample_regions),
        fold_coverage,
    );
    let tcovs = match regions_coverage(data, target_regions) {
        Ok(v) => v,
        Err(e) => {
            return Err(e);
        },
    };
    let scovs: Vec<(String, Cov)> = match sample_regions {
        Some(s) => {
            match regions_coverage(data, s) {
                Ok(v) => v,
                Err(e) => {
                    return Err(e);
                },
            }
        },
        None => {
            let mut v: Vec<(String, Cov)> = Vec::new();
            let mut i: usize = 0;
            assert(pair_views(v@) =~~= target_regions@.take(0).map_values(
                |r: Region| (r.name@, Cov { total: fold_coverage, len: 1 }),
            ));
            while i < target_regions.len()
                invariant
                    0 <= i <= target_regions@.len(),
                    pair_views(v@) == target_regions@.take(i as int).map_values(
                        |r: Region| (r.name@, Cov { total: fold_coverage, len: 1 }),
                    ),
                decreases target_regions@.len() - i,
            {
                let ghost prev = v@;
                v.push((target_regions[i].name.clone(), Cov { total: fold_coverage, len: 1 }));
                proof {
                    let a = pair_views(v@);
                    let b = target_regions@.take(i as int + 1).map_values(
                        |r: Region| (r.name@, Cov { total: fold_coverage, len: 1 }),
                    );
                    assert forall|j: int| 0 <= j < a.len() implies a[j] == b[j] by {
                        if j < i as int {
                            assert(a[j] == pair_views(prev)[j]);
                            assert(b[j] == target_regions@.take(i as int).map_values(
                                |r: Region| (r.name@, Cov { total: fold_coverage, len: 1 }),
                            )[j]);
                        }
                    }
                    assert(a =~= b);
                }
                i = i + 1;
            }
            assert(target_regions@.take(target_regions@.len() as int) =~= target_regions@);
            proof {
                assert forall|j: int| 0 <= j < v@.len() implies (#[trigger] v@[j]).1.len > 0 by {
                    assert(pair_views(v@)[j].1 == v@[j].1);
                    assert(target_regions@.map_values(
                        |r: Region| (r.name@, Cov { total: fold_coverage, len: 1 }),
                    )[j].1 == Cov { total: fold_coverage, len: 1 });
                }
            }
            v
        },
    };
    proof {
        assert(pair_views(scovs@) =~~= spairs);
        assert(pair_views(tcovs@).len() == tcovs@.len());
        assert(cov_pairs(data.recs(), data.contigs@, target_regions@).len()
            == target_regions@.len());
    }
    let mut probs: Vec<(String, Prob)> = Vec::new();
    let mut i: usize = 0;
    while i < target_regions.len()
        invariant
            0 <= i <= target_regions@.len(),
            pair_views(tcovs@) == cov_pairs(data.recs(), data.contigs@, target_regions@),
            tcovs@.len() == target_regions@.len(),
            forall|j: int| 0 <= j < tcovs@.len() ==> (#[trigger] tcovs@[j]).1.len > 0,
            pair_views(scovs@) == spairs,
            forall|j: int| 0 <= j < scovs@.len() ==> (#[trigger] scovs@[j]).1.len > 0,
            forall|j: int| 0 <= j < i ==> check_ok(
                spec_cov(data.recs(), data.contigs@, #[trigger] target_regions@[j]),
                spairs,
                target_regions@[j].name@,
            ),
            probs@.len() == i,
            forall|j: int|
                0 <= j < i ==> {
                    let r = target_regions@[j];
                    let t = spec_cov(data.recs(), data.contigs@, r);
                    &&& (#[trigger] probs@[j]).0@ == r.name@
                    &&& probs@[j].1 == prob_of(t, assoc(spairs, r.name@)->Some_0)
                    &&& probs@[j].1.wf()
                },
        decreases target_regions@.len() - i,
    {
        let name = &target_regions[i].name;
        let t = tcovs[i].1;
        proof {
            assert(pair_views(tcovs@)[i as int] == (target_regions@[i as int].name@, spec_cov(
                data.recs(),
                data.contigs@,
                target_regions@[i as int],
            )));
        }
        let s = match assoc_get(&scovs, name.as_str()) {
            Some(c) => c,
            None => {
                let msg = String::from_str("No sample mean coverage found for target region ")
                    .concat(name.as_str());
                return Err(Error::Calibration { msg });
            },
        };
        proof {
            crate::names::lemma_assoc_some(pair_views(scovs@), name@);
            let j = choose|j: int|
                0 <= j < pair_views(scovs@).len() && (#[trigger] pair_views(scovs@)[j]).0 == name@
                    && pair_views(scovs@)[j].1 == assoc(pair_views(scovs@), name@)->Some_0;
            assert(scovs@[j].1.len > 0);
        }
        if t.total == 0 {
            let msg = String::from_str("Target mean coverage for region ").concat(
                name.as_str(),
            ).concat(" is zero");
            return Err(Error::Calibration { msg });
        }
        proof {
            assert((s.total as int) * (t.len as int) <= u128::MAX && (t.total as int) * (
            s.len as int) <= u128::MAX) by (nonlinear_arith)
                requires
                    s.total <= u64::MAX && t.len <= u64::MAX && t.total <= u64::MAX && s.len
                        <= u64::MAX;
        }
        let num = (s.total as u128) * (t.len as u128);
        let den = (t.total as u128) * (s.len as u128);
        proof {
            assert(s == assoc(spairs, target_regions@[i as int].name@)->Some_0);
            assert(t == spec_cov(data.recs(), data.contigs@, target_regions@[i as int]));
            assert((t.total as int) * (s.len as int) > 0) by (nonlinear_arith)
                requires t.total > 0 && s.len > 0;
            assert(Prob { num, den } == prob_of(t, s));
        }
        if den < num {
            let msg = String::from_str("Target mean coverage for region ").concat(
                name.as_str(),
            ).concat(" is less than sample mean coverage");
            return Err(Error::Calibration { msg });
        }
        probs.push((name.clone(), Prob { num, den }));
        i = i + 1;
    }
    Ok(probs)
}

/// The set of contig indices a vector holds.
pub open spec fn tid_set(v: Seq<i32>) -> Set<int> {
    Set::new(|t: int| exists|j: int| 0 <= j < v.len() && (#[trigger] v[j]) as int == t)
}

/// Whether the vector holds contig index `t`.
#[verifier::loop_isolation(false)]
pub fn tids_contain(v: &Vec<i32>, t: i32) -> (b: bool)
    ensures
        b == tid_set(v@).contains(t as int),
{
    let mut j: usize = 0;
    while j < v.len()
        invariant
            0 <= j <= v@.len(),
            forall|k: int| 0 <= k < j ==> (#[trigger] v@[k]) != t,
        decreases v@.len() - j,
    {
        if v[j] == t {
            assert(tid_set(v@).contains(t as int));
            return true;
        }
        j = j + 1;
    }
    assert(!tid_set(v@).contains(t as int));
    false
}

/// One engine step over a record of a target region: where the mate lies on
/// a calibrated contig the sampling decision runs; either way the record's
/// name is marked considered.
pub open spec fn scan_step(st: ScanState, r: RecView, p: Prob, seed: u64, tids: Set<int>) -> ScanState {
    let st1 = if tids.contains(r.mtid as int) {
        subsample_step(st, r, p, seed).0
    } else {
        st
    };
    ScanState { keep: st1.keep, considered: st1.considered.insert(r.qname), drawn: st1.drawn }
}

/// The engine state after scanning the records of one region, in order.
pub open spec fn scan_records(
    st: ScanState,
    recs: Seq<RecView>,
    p: Prob,
    seed: u64,
    tids: Set<int>,
) -> ScanState
    decreases recs.len(),
{
    if recs.len() == 0 {
        st
    } else {
        scan_step(scan_records(st, recs.drop_last(), p, seed, tids), recs.last(), p, seed, tids)
    }
}

/// The records of `recs` lying in region `r`, in order.
pub open spec fn region_recs(recs: Seq<RecView>, contigs: Seq<Contig>, r: Region) -> Seq<RecView> {
    recs.filter(
        |x: RecView| in_region(x, spec_tid(contigs, r.contig@), r.beg as int, r.end as int),
    )
}

/// The keep-probability of every target region, in order, as
/// [`determine_downsampling_probabilities`] assigns them.
pub open spec fn spec_probs(
    recs: Seq<RecView>,
    contigs: Seq<Contig>,
    targets: Seq<Region>,
    samples: Option<Seq<Region>>,
    fold_coverage: u64,
) -> Seq<(Seq<char>, Prob)> {
    targets.map_values(
        |r: Region|
            (
                r.name@,
                prob_of(
                    spec_cov(recs, contigs, r),
                    assoc(
                        sample_pairs(recs, contigs, targets, samples, fold_coverage),
                        r.name@,
                    )->Some_0,
                ),
            ),
    )
}

/// The engine state after scanning every target region, in order.
pub open spec fn scan_regions(
    st: ScanState,
    recs: Seq<RecView>,
    contigs: Seq<Contig>,
    regions: Seq<Region>,
    probs: Seq<(Seq<char>, Prob)>,
    seed: u64,
    tids: Set<int>,
) -> ScanState
    decreases regions.len(),
{
    if regions.len() == 0 {
        st
    } else {
        let st1 = scan_regions(st, recs, contigs, regions.drop_last(), probs, seed, tids);
        scan_records(
            st1,
            region_recs(recs, contigs, regions.last()),
            assoc(probs, regions.last().name@)->Some_0,
            seed,
            tids,
        )
    }
}

/// Scanning a region's records takes at most one draw per record.
pub proof fn lemma_scan_records_drawn(
    st: ScanState,
    recs: Seq<RecView>,
    p: Prob,
    seed: u64,
    tids: Set<int>,
)
    ensures
        st.drawn <= scan_records(st, recs, p, seed, tids).drawn <= st.drawn + recs.len(),
    decreases recs.len(),
{
    if recs.len() > 0 {
        lemma_scan_records_drawn(st, recs.drop_last(), p, seed, tids);
    }
}

/// Whether every probability the engine needs exists: every region can be
/// measured and every per-name check passes.
pub open spec fn probs_ok(
    recs: Seq<RecView>,
    contigs: Seq<Contig>,
    targets: Seq<Region>,
    samples: Option<Seq<Region>>,
    fold_coverage: u64,
) -> bool {
    let spairs = sample_pairs(recs, contigs, targets, samples, fold_coverage);
    &&& (forall|i: int| 0 <= i < targets.len() ==> cov_ok(contigs, #[trigger] targets[i]))
    &&& (match samples {
        Some(s) => forall|i: int| 0 <= i < s.len() ==> cov_ok(contigs, #[trigger] s[i]),
        None => true,
    })
    &&& (forall|i: int|
        0 <= i < targets.len() ==> check_ok(
            spec_cov(recs, contigs, #[trigger] targets[i]),
            spairs,
            targets[i].name@,
        ))
}

/// Calibrates by fixed or sample-mean coverage: derives each target region's
/// keep-probability, then scans each region's records in order, deciding
/// once per read-pair name. Names decided to keep are added to `keep`.
///
/// Succeeds exactly when the probabilities can be derived; on success `keep`
/// holds exactly the names that [`scan_regions`] keeps from a fresh
/// considered-set and a generator seeded with `seed`.
#[verifier::loop_isolation(false)]
pub fn calibrate_by_fixed_coverage(
    data: &AlignmentData,
    target_regions: &[Region],
    sample_regions: Option<&[Region]>,
    keep: &mut NameSet,
    sequin_tids: &Vec<i32>,
    fold_coverage: u64,
    seed: u64,
) -> (res: Result<(), Error>)
    requires
        data.wf(),
        data.records@.len() <= u32::MAX,
        regions_small(target_regions@),
        match sample_regions {
            Some(s) => regions_small(s@),
            None => true,
        },
    ensures
        res is Ok <==> probs_ok(
            data.recs(),
            data.contigs@,
            target_regions@,
            opt_regions(sample_regions),
            fold_coverage,
        ),
        res is Ok ==> final(keep)@ == scan_regions(
            scan_state(old(keep)@, Set::empty(), 0),
            data.recs(),
            data.contigs@,
            target_regions@,
            spec_probs(
                data.recs(),
                data.contigs@,
                target_regions@,
                opt_regions(sample_regions),
                fold_coverage,
            ),
            seed,
            tid_set(sequin_tids@),
        ).keep,
        res is Err ==> final(keep)@ == old(keep)@,
{
    let ghost recs = data.recs();
    let ghost contigs = data.contigs@;
    let ghost samples = opt_regions(sample_regions);
    let ghost pspec = spec_probs(recs, contigs, target_regions@, samples, fold_coverage);
    let ghost tids = tid_set(sequin_tids@);
    let probs = match determine_downsampling_probabilities(
        data,
        target_regions,
        sample_regions,
        fold_coverage,
    ) {
        Ok(p) => p,
        Err(e) => {
            return Err(e);
        },
    };
    proof {
        assert(pair_views(probs@) =~= pspec);
    }
    let mut rng = SeededRng::from_seed(seed);
    let mut considered = NameSet::new();
    let ghost st0 = scan_state(old(keep)@, Set::empty(), 0);
    let ghost n = data.records@.len() as int;
    let mut i: usize = 0;
    while i < target_regions.len()
        invariant
            0 <= i <= target_regions@.len(),
            ({
                let st = scan_regions(
                    st0,
                    recs,
                    contigs,
                    target_regions@.take(i as int),
                    pspec,
                    seed,
                    tids,
                );
                &&& keep@ == st.keep
                &&& considered@ == st.considered
                &&& rng.drawn() as nat == st.drawn
                &&& rng.seed() == seed
                &&& st.drawn <= (i as int) * n
            }),
        decreases target_regions@.len() - i,
    {
        let region = &target_regions[i];
        let ghost st_region = scan_regions(
            st0,
            recs,
            contigs,
            target_regions@.take(i as int),
            pspec,
            seed,
            tids,
        );
        let tid: i32 = match data.tid(region.contig.as_str()) {
            Some(t) => t,
            None => {
                proof {
                    assert(cov_ok(contigs, target_regions@[i as int]));
                    let w = choose|t: int| is_first_tid(contigs, region.contig@, t);
                    assert(contigs[w].name@ == region.contig@);
                    assert(false);
                }
                return Err(Error::InvalidRegion);
            },
        };
        proof {
            assert(is_first_tid(contigs, region.contig@, tid as int));
            crate::coverage::lemma_first_tid_unique(
                contigs,
                region.contig@,
                tid as int,
                spec_tid(contigs, region.contig@),
            );
        }
        let rrecs = data.fetch_region(tid, region.beg, region.end);
        proof {
            assert(views(rrecs@) == region_recs(recs, contigs, target_regions@[i as int]));
            recs.lemma_filter_len(
                |x: RecView| in_region(
                    x,
                    spec_tid(contigs, region.contig@),
                    region.beg as int,
                    region.end as int,
                ),
            );
        }
        let p: Prob = match assoc_get(&probs, region.name.as_str()) {
            Some(p) => p,
            None => {
                proof {
                    crate::names::lemma_assoc_present(
                        pair_views(probs@),
                        region.name@,
                        i as int,
                    );
                    assert(false);
                }
                proof {
                    reveal_strlit("No downsampling probability found for region ");
                }
                let msg = String::from_str(
                    "No downsampling probability found for region ",
                ).concat(region.name.as_str());
                return Err(Error::Calibration { msg });
            },
        };
        let mut j: usize = 0;
        while j < rrecs.len()
            invariant
                0 <= j <= rrecs@.len(),
                ({
                    let st = scan_records(
                        st_region,
                        views(rrecs@).take(j as int),
                        p,
                        seed,
                        tids,
                    );
                    &&& keep@ == st.keep
                    &&& considered@ == st.considered
                    &&& rng.drawn() as nat == st.drawn
                    &&& rng.seed() == seed
                    &&& st.drawn <= st_region.drawn + j
                }),
            decreases rrecs@.len() - j,
        {
            let r = &rrecs[j];
            proof {
                assert(views(rrecs@).take(j as int + 1).drop_last() =~= views(rrecs@).take(
                    j as int,
                ));
                assert(views(rrecs@).take(j as int + 1).last() == rrecs@[j as int]@);
                assert((i as int) * n + n == (i as int + 1) * n) by (nonlinear_arith);
                assert((i as int) * n <= (target_regions@.len() as int) * n) by (nonlinear_arith)
                    requires 0 <= i as int <= target_regions@.len() && n >= 0;
                assert((target_regions@.len() as int) * n + n < u128::MAX) by (nonlinear_arith)
                    requires
                        0 <= target_regions@.len() <= usize::MAX && 0 <= n <= usize::MAX && usize::MAX
                            <= u64::MAX;
            }
            if tids_contain(sequin_tids, r.mtid) {
                subsample(r, keep, &considered, p, &mut rng);
            }
            considered.insert(r.qname.clone());
            j = j + 1;
        }
        proof {
            assert(views(rrecs@).take(rrecs@.len() as int) =~= views(rrecs@));
            assert(target_regions@.take(i as int + 1).drop_last() =~= target_regions@.take(
                i as int,
            ));
            assert(target_regions@.take(i as int + 1).last() == target_regions@[i as int]);
            assert(p == assoc(pspec, target_regions@[i as int].name@)->Some_0);
            lemma_scan_records_drawn(st_region, views(rrecs@), p, seed, tids);
            assert((i as int) * n + n == (i as int + 1) * n) by (nonlinear_arith);
        }
        i = i + 1;
    }
    assert(target_regions@.take(target_regions@.len() as int) =~= target_regions@);
    Ok(())
}

/// How many read starts lie in `[beg, end)` on contig `tid` with mapping
/// quality at least `min_mapq`.
pub open spec fn win_starts(
    recs: Seq<RecView>,
    tid: int,
    beg: int,
    end: int,
    min_mapq: u8,
) -> int {
    recs.filter(|x: RecView| in_region(x, tid, beg, end)).filter(
        |x: RecView| x.mapq >= min_mapq,
    ).len() as int
}

/// How many records have mapping quality at least `min_mapq`.
#[verifier::loop_isolation(false)]
fn count_mapq(recs: &Vec<Rec>, min_mapq: u8) -> (n: usize)
    ensures
        n == views(recs@).filter(|x: RecView| x.mapq >= min_mapq).len(),
{
    let ghost pred = |x: RecView| x.mapq >= min_mapq;
    let ghost all = views(recs@);
    let mut n: usize = 0;
    let mut i: usize = 0;
    proof {
        reveal(Seq::filter);
        assert(all.take(0).filter(pred) =~= Seq::<RecView>::empty());
    }
    while i < recs.len()
        invariant
            0 <= i <= recs@.len(),
            n <= i,
            n == all.take(i as int).filter(pred).len(),
        decreases recs@.len() - i,
    {
        proof {
            crate::records::lemma_filter_take_step(all, pred, i as int);
            assert(all[i as int] == recs@[i as int]@);
        }
        if recs[i].mapq >= min_mapq {
            n = n + 1;
        }
        i = i + 1;
    }
    assert(all.take(recs@.len() as int) =~= all);
    n
}

/// Counts the read starts in `[region.beg, region.end)` with mapping quality
/// at least `min_mapq`. Fails when the region's contig is not in the header.
pub fn starts_in(data: &AlignmentData, region: &Region, min_mapq: u8) -> (res: Result<u64, Error>)
    requires
        data.wf(),
    ensures
        res is Ok <==> (exists|t: int| is_first_tid(data.contigs@, region.contig@, t)),
        res matches Ok(n) ==> n == win_starts(
            data.recs(),
            spec_tid(data.contigs@, region.contig@),
            region.beg as int,
            region.end as int,
            min_mapq,
        ),
{
    let tid: i32 = match data.tid(region.contig.as_str()) {
        Some(t) => t,
        None => {
            proof {
                reveal_strlit("Chromosome ");
                reveal_strlit(" not found in BAM header");
                assert(forall|t: int| !is_first_tid(data.contigs@, region.contig@, t));
            }
            let msg = String::from_str("Chromosome ").concat(region.contig.as_str()).concat(
                " not found in BAM header",
            );
            return Err(Error::Bedcov { msg });
        },
    };
    proof {
        assert(is_first_tid(data.contigs@, region.contig@, tid as int));
        crate::coverage::lemma_first_tid_unique(
            data.contigs@,
            region.contig@,
            tid as int,
            spec_tid(data.contigs@, region.contig@),
        );
    }
    let recs = data.fetch_region(tid, region.beg, region.end);
    let n = count_mapq(&recs, min_mapq);
    proof {
        views(recs@).lemma_filter_len(|x: RecView| x.mapq >= min_mapq);
    }
    Ok(n as u64)
}

/// How many whole windows of `ws` bases fit in `[beg, end)`; a final partial
/// window is dropped.
pub open spec fn win_count(beg: int, end: int, ws: int) -> int {
    if end <= beg {
        0
    } else {
        (end - beg) / ws
    }
}

/// Counts the read starts in each whole window of `region`, in window order.
///
/// Fails when there is at least one window and the region's contig is not in
/// the header.
#[verifier::loop_isolation(false)]
pub fn window_starts(
    data: &AlignmentData,
    region: &Region,
    window_size: u64,
    min_mapq: u8,
) -> (res: Result<Vec<u64>, Error>)
    requires
        data.wf(),
        window_size >= 1,
    ensures
        res is Ok <==> (win_count(region.beg as int, region.end as int, window_size as int) == 0
            || exists|t: int| is_first_tid(data.contigs@, region.contig@, t)),
        res matches Ok(v) ==> {
            let nwin = win_count(region.beg as int, region.end as int, window_size as int);
            &&& v@.len() == nwin
            &&& forall|k: int|
                0 <= k < nwin ==> (#[trigger] v@[k]) == win_starts(
                    data.recs(),
                    spec_tid(data.contigs@, region.contig@),
                    region.beg + k * window_size,
                    region.beg + (k + 1) * window_size,
                    min_mapq,
                )
        },
{
    let mut starts: Vec<u64> = Vec::new();
    if region.end <= region.beg {
        return Ok(starts);
    }
    let nwin: u64 = (region.end - region.beg) / window_size;
    if nwin == 0 {
        return Ok(starts);
    }
    let tid: i32 = match data.tid(region.contig.as_str()) {
        Some(t) => t,
        None => {
            proof {
                reveal_strlit("Chromosome ");
                reveal_strlit(" not found in BAM header");
                assert(forall|t: int| !is_first_tid(data.contigs@, region.contig@, t));
            }
            let msg = String::from_str("Chromosome ").concat(region.contig.as_str()).concat(
                " not found in BAM header",
            );
            return Err(Error::Bedcov { msg });
        },
    };
    proof {
        assert(is_first_tid(data.contigs@, region.contig@, tid as int));
        crate::coverage::lemma_first_tid_unique(
            data.contigs@,
            region.contig@,
            tid as int,
            spec_tid(data.contigs@, region.contig@),
        );
    }
    let mut k: u64 = 0;
    while k < nwin
        invariant
            0 <= k <= nwin,
            starts@.len() == k,
            forall|j: int|
                0 <= j < k ==> (#[trigger] starts@[j]) == win_starts(
                    data.recs(),
                    tid as int,
                    region.beg + j * window_size,
                    region.beg + (j + 1) * window_size,
                    min_mapq,
                ),
        decreases nwin - k,
    {
        proof {
            vstd::arithmetic::div_mod::lemma_fundamental_div_mod(
                region.end - region.beg,
                window_size as int,
            );
            assert((region.end - region.beg) % (window_size as int) >= 0) by (nonlinear_arith)
                requires window_size >= 1 && region.end > region.beg;
            assert((k as int + 1) * window_size <= (nwin as int) * window_size)
                by (nonlinear_arith)
                requires k as int + 1 <= nwin as int && window_size >= 1;
            assert((k as int) * window_size >= 0 && (k as int) * window_size <= (k as int + 1)
                * window_size) by (nonlinear_arith)
                requires k >= 0 && window_size >= 1;
            assert((k as int + 1) * window_size == (k as int) * window_size + window_size)
                by (nonlinear_arith);
        }
        let wbeg: u64 = region.beg + k * window_size;
        let wend: u64 = wbeg + window_size;
        let recs = data.fetch_region(tid, wbeg, wend);
        let n = count_mapq(&recs, min_mapq);
        proof {
            views(recs@).lemma_filter_len(|x: RecView| x.mapq >= min_mapq);
        }
        starts.push(n as u64);
        k = k + 1;
    }
    Ok(starts)
}

/// The records that start in `[beg, end)` on the named contig, in source
/// order. Fails when the contig is not in the header.
pub fn records_that_start_in_region(
    data: &AlignmentData,
    contig: &str,
    beg: u64,
    end: u64,
) -> (res: Result<Vec<Rec>, Error>)
    requires
        data.wf(),
    ensures
        res is Ok <==> (exists|t: int| is_first_tid(data.contigs@, contig@, t)),
        res matches Ok(v) ==> views(v@) == data.recs().filter(
            |x: RecView| in_region(x, spec_tid(data.contigs@, contig@), beg as int, end as int),
        ),
{
    let tid: i32 = match data.tid(contig) {
        Some(t) => t,
        None => {
            proof {
                reveal_strlit("Chromosome ");
                reveal_strlit(" not found in BAM header");
                assert(forall|t: int| !is_first_tid(data.contigs@, contig@, t));
            }
            let msg = String::from_str("Chromosome ").concat(contig).concat(
                " not found in BAM header",
            );
            return Err(Error::Bedcov { msg });
        },
    };
    proof {
        assert(is_first_tid(data.contigs@, contig@, tid as int));
        crate::coverage::lemma_first_tid_unique(
            data.contigs@,
            contig@,
            tid as int,
            spec_tid(data.contigs@, contig@),
        );
    }
    Ok(data.fetch_region(tid, beg, end))
}

/// Samples `n` of the indices `0..size` uniformly at random, without
/// replacement, from a fresh generator seeded with `seed`. When fewer than
/// `n` are available, all of them are returned.
pub fn choose_from(size: u64, n: u64, seed: u64) -> (r: Vec<u64>)
    requires
        n <= usize::MAX as u64,
    ensures
        r@ == chosen_of(size, n as nat, seed),
        r@.len() == if size <= n {
            size as int
        } else {
            n as int
        },
        forall|i: int| 0 <= i < r@.len() ==> r@[i] < size,
        forall|i: int, j: int| 0 <= i < j < r@.len() ==> r@[i] != r@[j],
{
    let rng = SeededRng::from_seed(seed);
    rng.choose_indices(size, n as usize)
}

/// A window's start count never exceeds the record count.
pub proof fn lemma_win_starts_bound(
    recs: Seq<RecView>,
    tid: int,
    beg: int,
    end: int,
    min_mapq: u8,
)
    ensures
        0 <= win_starts(recs, tid, beg, end, min_mapq) <= recs.len(),
{
    recs.lemma_filter_len(|x: RecView| in_region(x, tid, beg, end));
    recs.filter(|x: RecView| in_region(x, tid, beg, end)).lemma_filter_len(
        |x: RecView| x.mapq >= min_mapq,
    );
}

/// The names of the records that the chosen indices pick out of a window's
/// candidates; indices out of range pick nothing.
pub open spec fn chosen_names(wrecs: Seq<RecView>, idxs: Seq<u64>) -> Set<Seq<char>>
    decreases idxs.len(),
{
    if idxs.len() == 0 {
        Set::empty()
    } else {
        let rest = chosen_names(wrecs, idxs.drop_last());
        if idxs.last() < wrecs.len() {
            rest.insert(wrecs[idxs.last() as int].qname)
        } else {
            rest
        }
    }
}

/// The records of a region whose start lies in its `k`-th window.
pub open spec fn window_recs(records: Seq<RecView>, beg: int, ws: int, k: int) -> Seq<RecView> {
    records.filter(|x: RecView| beg + k * ws <= x.pos < beg + (k + 1) * ws)
}

/// The names kept after matching the first `k` windows: each window takes
/// half its reversed sample start-count, sampled without replacement from
/// the window's candidates.
pub open spec fn keep_names_upto(
    records: Seq<RecView>,
    beg: int,
    ws: int,
    rev: Seq<u64>,
    seed: u64,
    k: int,
) -> Set<Seq<char>>
    decreases k,
{
    if k <= 0 {
        Set::empty()
    } else {
        let prev = keep_names_upto(records, beg, ws, rev, seed, k - 1);
        let wrecs = window_recs(records, beg, ws, k - 1);
        let n = rev[k - 1] / 2;
        prev.union(chosen_names(wrecs, chosen_of(wrecs.len() as u64, n as nat, seed)))
    }
}

/// The sample region's per-window start counts in reverse window order: the
/// target mirrors the sample, so its first window is matched against the
/// sample's last.
pub open spec fn rev_starts(
    recs: Seq<RecView>,
    contigs: Seq<Contig>,
    sample: Region,
    ws: int,
    min_mapq: u8,
) -> Seq<u64> {
    let nwin = win_count(sample.beg as int, sample.end as int, ws);
    Seq::new(
        nwin as nat,
        |k: int|
            win_starts(
                recs,
                spec_tid(contigs, sample.contig@),
                sample.beg + (nwin - 1 - k) * ws,
                sample.beg + (nwin - k) * ws,
                min_mapq,
            ) as u64,
    )
}

/// The index of the last sample region with the given name, if any.
pub open spec fn region_assoc(regions: Seq<Region>, q: Seq<char>) -> Option<int>
    decreases regions.len(),
{
    if regions.len() == 0 {
        None
    } else if regions.last().name@ == q {
        Some(regions.len() - 1)
    } else {
        region_assoc(regions.drop_last(), q)
    }
}

/// Finds the last region with the given name.
#[verifier::loop_isolation(false)]
pub fn find_region(regions: &[Region], name: &str) -> (o: Option<usize>)
    ensures
        match o {
            Some(i) => 0 <= i < regions@.len() && region_assoc(regions@, name@) == Some(i as int),
            None => region_assoc(regions@, name@) is None,
        },
{
    let mut i: usize = regions.len();
    assert(regions@.take(i as int) =~= regions@);
    while i > 0
        invariant
            0 <= i <= regions@.len(),
            region_assoc(regions@, name@) == region_assoc(regions@.take(i as int), name@),
        decreases i,
    {
        i = i - 1;
        proof {
            assert(regions@.take(i as int + 1).last() == regions@[i as int]);
            assert(regions@.take(i as int + 1).drop_last() =~= regions@.take(i as int));
        }
        if regions[i].name.as_str().eq(name) {
            return Some(i);
        }
    }
    assert(regions@.take(0) =~= Seq::<Region>::empty());
    None
}

/// The output of profile-matching one target region against its sample
/// region: the region's records whose names the windowed selection kept,
/// in source order.
pub open spec fn profile_region_out(
    recs: Seq<RecView>,
    contigs: Seq<Contig>,
    target: Region,
    sample: Region,
    ws: int,
    min_mapq: u8,
    seed: u64,
) -> Seq<RecView> {
    let records = recs.filter(
        |x: RecView| in_region(
            x,
            spec_tid(contigs, target.contig@),
            target.beg as int,
            target.end as int,
        ),
    );
    let rev = rev_starts(recs, contigs, sample, ws, min_mapq);
    let nwin_t = win_count(target.beg as int, target.end as int, ws);
    let kmax = if nwin_t <= rev.len() {
        nwin_t
    } else {
        rev.len() as int
    };
    let keep = keep_names_upto(records, target.beg as int, ws, rev, seed, kmax);
    records.filter(|x: RecView| keep.contains(x.qname))
}

/// Whether one target region can be profile-matched: a sample region bears
/// its name, the sample's contig is in the header where it has windows, and
/// the target's contig is in the header.
pub open spec fn profile_region_ok(
    contigs: Seq<Contig>,
    target: Region,
    samples: Seq<Region>,
    ws: int,
) -> bool {
    &&& region_assoc(samples, target.name@) is Some
    &&& {
        let s = samples[region_assoc(samples, target.name@)->Some_0];
        win_count(s.beg as int, s.end as int, ws) == 0 || exists|t: int|
            is_first_tid(contigs, s.contig@, t)
    }
    &&& exists|t: int| is_first_tid(contigs, target.contig@, t)
}

/// The concatenated profile-matching output over the target regions, in
/// order.
pub open spec fn profile_out(
    recs: Seq<RecView>,
    contigs: Seq<Contig>,
    targets: Seq<Region>,
    samples: Seq<Region>,
    ws: int,
    min_mapq: u8,
    seed: u64,
) -> Seq<RecView>
    decreases targets.len(),
{
    if targets.len() == 0 {
        Seq::empty()
    } else {
        profile_out(recs, contigs, targets.drop_last(), samples, ws, min_mapq, seed)
            + profile_region_out(
            recs,
            contigs,
            targets.last(),
            samples[region_assoc(samples, targets.last().name@)->Some_0],
            ws,
            min_mapq,
            seed,
        )
    }
}

/// Profile-matches every target region against its name-matched sample
/// region and returns the records kept, region by region.
///
/// For each target the sample's per-window start counts are taken in reverse
/// window order; each target window keeps half that count (never more than
/// are available), chosen without replacement by a generator seeded with
/// `seed`; the region's records whose names were chosen are returned.
#[verifier::loop_isolation(false)]
pub fn calibrate_regions(
    data: &AlignmentData,
    target_regions: &[Region],
    sample_regions: &[Region],
    window_size: u64,
    min_mapq: u8,
    seed: u64,
) -> (res: Result<Vec<Rec>, Error>)
    requires
        data.wf(),
        window_size >= 1,
    ensures
        res is Ok <==> (forall|i: int| 0 <= i < target_regions@.len() ==> profile_region_ok(
            data.contigs@,
            #[trigger] target_regions@[i],
            sample_regions@,
            window_size as int,
        )),
        res matches Ok(v) ==> views(v@) == profile_out(
            data.recs(),
            data.contigs@,
            target_regions@,
            sample_regions@,
            window_size as int,
            min_mapq,
            seed,
        ),
{
    let ghost recs = data.recs();
    let ghost contigs = data.contigs@;
    let ghost ws = window_size as int;
    let nrec_total = data.records.len();
    assert(recs.len() == nrec_total);
    let mut out: Vec<Rec> = Vec::new();
    let mut i: usize = 0;
    assert(views(out@) =~= profile_out(
        recs,
        contigs,
        target_regions@.take(0),
        sample_regions@,
        ws,
        min_mapq,
        seed,
    ));
    while i < target_regions.len()
        invariant
            0 <= i <= target_regions@.len(),
            forall|j: int| 0 <= j < i ==> profile_region_ok(
                contigs,
                #[trigger] target_regions@[j],
                sample_regions@,
                ws,
            ),
            views(out@) == profile_out(
                recs,
                contigs,
                target_regions@.take(i as int),
                sample_regions@,
                ws,
                min_mapq,
                seed,
            ),
        decreases target_regions@.len() - i,
    {
        let target = &target_regions[i];
        let si: usize = match find_region(sample_regions, target.name.as_str()) {
            Some(s) => s,
            None => {
                proof {
                    reveal_strlit("No matching sample region found for target region ");
                }
                let msg = String::from_str(
                    "No matching sample region found for target region ",
                ).concat(target.name.as_str());
                return Err(Error::Calibration { msg });
            },
        };
        let sample = &sample_regions[si];
        let starts = match window_starts(data, sample, window_size, min_mapq) {
            Ok(v) => v,
            Err(e) => {
                return Err(e);
            },
        };
        // Reverse the sample's window counts: the target mirrors the sample.
        let mut rev: Vec<u64> = Vec::new();
        let nws = starts.len();
        let mut k: usize = 0;
        while k < nws
            invariant
                0 <= k <= nws,
                nws == starts@.len(),
                rev@.len() == k,
                forall|j: int| 0 <= j < k ==> (#[trigger] rev@[j]) == starts@[nws - 1 - j],
            decreases nws - k,
        {
            rev.push(starts[nws - 1 - k]);
            k = k + 1;
        }
        proof {
            assert(rev@ =~= rev_starts(recs, contigs, *sample, ws, min_mapq));
        }
        let records = match records_that_start_in_region(
            data,
            target.contig.as_str(),
            target.beg,
            target.end,
        ) {
            Ok(v) => v,
            Err(e) => {
                return Err(e);
            },
        };
        let nwin_t: u64 = if target.end <= target.beg {
            0
        } else {
            (target.end - target.beg) / window_size
        };
        let kmax: u64 = if nwin_t <= rev.len() as u64 {
            nwin_t
        } else {
            rev.len() as u64
        };
        let mut keep_names = NameSet::new();
        let mut k: u64 = 0;
        while k < kmax
            invariant
                0 <= k <= kmax,
                keep_names@ == keep_names_upto(
                    views(records@),
                    target.beg as int,
                    ws,
                    rev@,
                    seed,
                    k as int,
                ),
            decreases kmax - k,
        {
            proof {
                assert(nwin_t >= 1);
                assert(target.end > target.beg);
                vstd::arithmetic::div_mod::lemma_fundamental_div_mod(
                    target.end - target.beg,
                    ws,
                );
                vstd::arithmetic::div_mod::lemma_mod_bound(target.end - target.beg, ws);
                assert((k as int + 1) * ws <= (nwin_t as int) * ws) by (nonlinear_arith)
                    requires k as int + 1 <= nwin_t as int && ws >= 1;
                assert((k as int) * ws >= 0 && (k as int) * ws <= (k as int + 1) * ws)
                    by (nonlinear_arith)
                    requires k >= 0 && ws >= 1;
                assert((k as int + 1) * ws == (k as int) * ws + ws) by (nonlinear_arith);
            }
            let wbeg: u64 = target.beg + k * window_size;
            let wend: u64 = wbeg + window_size;
            // The window's candidates: records that start inside it.
            let ghost wpred = |x: RecView|
                target.beg + (k as int) * ws <= x.pos < target.beg + (k as int + 1) * ws;
            let mut wrecs: Vec<Rec> = Vec::new();
            let mut m: usize = 0;
            proof {
                reveal(Seq::filter);
                assert(views(wrecs@) =~= views(records@).take(0).filter(wpred));
            }
            while m < records.len()
                invariant
                    0 <= m <= records@.len(),
                    views(wrecs@) == views(records@).take(m as int).filter(wpred),
                decreases records@.len() - m,
            {
                let r = &records[m];
                proof {
                    crate::records::lemma_filter_take_step(views(records@), wpred, m as int);
                    assert(views(records@)[m as int] == records@[m as int]@);
                }
                if r.pos >= 0 && (r.pos as u64) >= wbeg && (r.pos as u64) < wend {
                    let ghost prev = views(wrecs@);
                    wrecs.push(r.duplicate());
                    assert(views(wrecs@) =~= prev.push(records@[m as int]@));
                }
                m = m + 1;
            }
            assert(views(records@).take(records@.len() as int) =~= views(records@));
            assert(views(wrecs@) == window_recs(views(records@), target.beg as int, ws, k as int));
            let n: u64 = rev[k as usize] / 2;
            proof {
                views(records@).lemma_filter_len(wpred);
                lemma_win_starts_bound(
                    recs,
                    spec_tid(contigs, sample.contig@),
                    sample.beg + (rev@.len() - 1 - k as int) * ws,
                    sample.beg + (rev@.len() - k as int) * ws,
                    min_mapq,
                );
                assert(rev@[k as int] <= recs.len());
            }
            let idxs = choose_from(wrecs.len() as u64, n, seed);
            let ghost base = keep_names@;
            let mut m: usize = 0;
            proof {
                assert(chosen_names(views(wrecs@), idxs@.take(0)) =~= Set::<Seq<char>>::empty());
                assert(keep_names@ =~= base.union(chosen_names(views(wrecs@), idxs@.take(0))));
            }
            while m < idxs.len()
                invariant
                    0 <= m <= idxs@.len(),
                    keep_names@ == base.union(chosen_names(views(wrecs@), idxs@.take(m as int))),
                    forall|j: int| 0 <= j < idxs@.len() ==> idxs@[j] < wrecs@.len(),
                decreases idxs@.len() - m,
            {
                proof {
                    assert(idxs@.take(m as int + 1).drop_last() =~= idxs@.take(m as int));
                    assert(idxs@.take(m as int + 1).last() == idxs@[m as int]);
                }
                let idx = idxs[m];
                keep_names.insert(wrecs[idx as usize].qname.clone());
                proof {
                    assert(keep_names@ =~= base.union(
                        chosen_names(views(wrecs@), idxs@.take(m as int + 1)),
                    ));
                }
                m = m + 1;
            }
            proof {
                assert(idxs@.take(idxs@.len() as int) =~= idxs@);
                assert(keep_names@ =~= keep_names_upto(
                    views(records@),
                    target.beg as int,
                    ws,
                    rev@,
                    seed,
                    k as int + 1,
                ));
            }
            k = k + 1;
        }
        // Write the region's records whose names were kept, in source order.
        let ghost keepset = keep_names@;
        let ghost opred = |x: RecView| keepset.contains(x.qname);
        let ghost outbase = views(out@);
        let mut m: usize = 0;
        proof {
            reveal(Seq::filter);
            assert(views(records@).take(0).filter(opred) =~= Seq::<RecView>::empty());
            assert(views(out@) =~= outbase + views(records@).take(0).filter(opred));
        }
        while m < records.len()
            invariant
                0 <= m <= records@.len(),
                views(out@) == outbase + views(records@).take(m as int).filter(opred),
            decreases records@.len() - m,
        {
            let r = &records[m];
            proof {
                crate::records::lemma_filter_take_step(views(records@), opred, m as int);
                assert(views(records@)[m as int] == records@[m as int]@);
            }
            if keep_names.contains(r.qname.as_str()) {
                let ghost prev = views(out@);
                out.push(r.duplicate());
                assert(views(out@) =~= prev.push(records@[m as int]@));
            }
            m = m + 1;
        }
        proof {
            assert(views(records@).take(records@.len() as int) =~= views(records@));
            assert(target_regions@.take(i as int + 1).drop_last() =~= target_regions@.take(
                i as int,
            ));
            assert(target_regions@.take(i as int + 1).last() == target_regions@[i as int]);
            assert(region_assoc(sample_regions@, target.name@) == Some(si as int));
            assert(views(out@) =~= profile_out(
                recs,
                contigs,
                target_regions@.take(i as int + 1),
                sample_regions@,
                ws,
                min_mapq,
                seed,
            ));
        }
        i = i + 1;
    }
    assert(target_regions@.take(target_regions@.len() as int) =~= target_regions@);
    Ok(out)
}

/// Whether any header contig carries a target region's contig name.
pub open spec fn any_target_contig(contigs: Seq<Contig>, regions: Seq<Region>) -> bool {
    exists|t: int, j: int|
        0 <= t < contigs.len() && 0 <= j < regions.len() && (#[trigger] contigs[t]).name@ == (
        #[trigger] regions[j]).contig@
}

/// The regions with `flank` bases trimmed from both ends.
pub open spec fn clip_seq(regions: Seq<Region>, flank: u64) -> Seq<Region> {
    regions.map_values(
        |r: Region|
            Region {
                contig: r.contig,
                beg: (r.beg + flank) as u64,
                end: (r.end - flank) as u64,
                name: r.name,
            },
    )
}

/// Whether every region survives trimming by `flank`.
pub open spec fn all_flank_ok(regions: Seq<Region>, flank: u64) -> bool {
    forall|i: int| 0 <= i < regions.len() ==> crate::region::flank_ok(
        #[trigger] regions[i],
        flank,
    )
}

/// Calibrates by sample-profile matching: trims both region sets by `flank`,
/// then matches each target region's windowed read-start profile against its
/// name-matched sample region. Nothing is done when no header contig carries
/// a target contig's name.
#[verifier::loop_isolation(false)]
pub fn calibrate_by_sample_profile(
    data: &AlignmentData,
    target_regions: &[Region],
    sample_regions: &[Region],
    flank: u64,
    window_size: u64,
    min_mapq: u8,
    seed: u64,
) -> (res: Result<Vec<Rec>, Error>)
    requires
        data.wf(),
        window_size >= 1,
    ensures
        !any_target_contig(data.contigs@, target_regions@) ==> (res matches Ok(v) && views(v@)
            == Seq::<RecView>::empty()),
        any_target_contig(data.contigs@, target_regions@) ==> {
            &&& (res is Ok <==> (all_flank_ok(target_regions@, flank) && all_flank_ok(
                sample_regions@,
                flank,
            ) && (forall|i: int|
                0 <= i < target_regions@.len() ==> profile_region_ok(
                    data.contigs@,
                    #[trigger] clip_seq(target_regions@, flank)[i],
                    clip_seq(sample_regions@, flank),
                    window_size as int,
                ))))
            &&& (res matches Ok(v) ==> views(v@) == profile_out(
                data.recs(),
                data.contigs@,
                clip_seq(target_regions@, flank),
                clip_seq(sample_regions@, flank),
                window_size as int,
                min_mapq,
                seed,
            ))
        },
{
    // The engine has work only where some header contig is calibrated.
    let mut any = false;
    let mut t: usize = 0;
    while t < data.contigs.len()
        invariant
            0 <= t <= data.contigs@.len(),
            any == exists|u: int, j: int|
                0 <= u < t && 0 <= j < target_regions@.len() && (#[trigger] data.contigs@[u]).name@
                    == (#[trigger] target_regions@[j]).contig@,
        decreases data.contigs@.len() - t,
    {
        let mut j: usize = 0;
        while j < target_regions.len()
            invariant
                0 <= j <= target_regions@.len(),
                0 <= t < data.contigs@.len(),
                any == exists|u: int, jj: int|
                    0 <= u < t && 0 <= jj < target_regions@.len() && (#[trigger] data.contigs@[
                    u]).name@ == (#[trigger] target_regions@[jj]).contig@,
                forall|jj: int|
                    0 <= jj < j ==> data.contigs@[t as int].name@ != (
                    #[trigger] target_regions@[jj]).contig@,
            decreases target_regions@.len() - j,
        {
            if data.contigs[t].name.as_str().eq(target_regions[j].contig.as_str()) {
                assert(any_target_contig(data.contigs@, target_regions@));
                any = true;
                break ;
            }
            j = j + 1;
        }
        if any {
            break ;
        }
        t = t + 1;
    }
    if !any {
        assert(!any_target_contig(data.contigs@, target_regions@));
        return Ok(Vec::new());
    }
    let clipped_targets = match crate::region::clip_regions(target_regions, flank) {
        Ok(v) => v,
        Err(e) => {
            return Err(e);
        },
    };
    let clipped_samples = match crate::region::clip_regions(sample_regions, flank) {
        Ok(v) => v,
        Err(e) => {
            return Err(e);
        },
    };
    proof {
        assert(clipped_targets@ =~= clip_seq(target_regions@, flank));
        assert(clipped_samples@ =~= clip_seq(sample_regions@, flank));
    }
    calibrate_regions(
        data,
        clipped_targets.as_slice(),
        clipped_samples.as_slice(),
        window_size,
        min_mapq,
        seed,
    )
}

/// The set of header contig indices whose name some target region carries.
pub open spec fn sequin_tid_set(contigs: Seq<Contig>, regions: Seq<Region>) -> Set<int> {
    Set::new(
        |t: int|
            0 <= t < contigs.len() && exists|j: int|
                0 <= j < regions.len() && (#[trigger] regions[j]).contig@ == contigs[t].name@,
    )
}

/// The final assembly pass: every record whose name is in the keep set is
/// written; unless uncalibrated reads are excluded, so is every record whose
/// mate lies outside the calibrated contigs.
pub open spec fn final_pass(
    recs: Seq<RecView>,
    keep: Set<Seq<char>>,
    tids: Set<int>,
    exclude_uncalibrated_reads: bool,
) -> Seq<RecView> {
    recs.filter(
        |r: RecView|
            keep.contains(r.qname) || (!tids.contains(r.mtid as int)
                && !exclude_uncalibrated_reads),
    )
}

/// What `calibrate` returns for each mode, when it succeeds: the kept
/// records of the sample-profile pass (empty in the other modes), followed
/// by the final assembly pass over the whole record stream.
pub open spec fn calibrate_out(
    recs: Seq<RecView>,
    contigs: Seq<Contig>,
    targets: Seq<Region>,
    mode: CalibrationMode,
    exclude_uncalibrated_reads: bool,
) -> Seq<RecView> {
    let tids = sequin_tid_set(contigs, targets);
    match mode {
        CalibrationMode::FixedCoverage { fold_coverage, seed } => final_pass(
            recs,
            scan_regions(
                scan_state(Set::empty(), Set::empty(), 0),
                recs,
                contigs,
                targets,
                spec_probs(recs, contigs, targets, None, fold_coverage),
                seed,
                tids,
            ).keep,
            tids,
            exclude_uncalibrated_reads,
        ),
        CalibrationMode::SampleMeanCoverage { sample_regions, seed } => final_pass(
            recs,
            scan_regions(
                scan_state(Set::empty(), Set::empty(), 0),
                recs,
                contigs,
                targets,
                spec_probs(recs, contigs, targets, Some(sample_regions@), 0),
                seed,
                tids,
            ).keep,
            tids,
            exclude_uncalibrated_reads,
        ),
        CalibrationMode::SampleProfile { sample_regions, flank, window_size, min_mapq, seed } => (
        if any_target_contig(contigs, targets) {
            profile_out(
                recs,
                contigs,
                clip_seq(targets, flank),
                clip_seq(sample_regions@, flank),
                window_size as int,
                min_mapq,
                seed,
            )
        } else {
            Seq::empty()
        }) + final_pass(recs, Set::empty(), tids, exclude_uncalibrated_reads),
    }
}

/// Whether `calibrate` succeeds for the given inputs.
pub open spec fn calibrate_ok(
    recs: Seq<RecView>,
    contigs: Seq<Contig>,
    targets: Seq<Region>,
    mode: CalibrationMode,
) -> bool {
    match mode {
        CalibrationMode::FixedCoverage { fold_coverage, seed } => probs_ok(
            recs,
            contigs,
            targets,
            None,
            fold_coverage,
        ),
        CalibrationMode::SampleMeanCoverage { sample_regions, seed } => probs_ok(
            recs,
            contigs,
            targets,
            Some(sample_regions@),
            0,
        ),
        CalibrationMode::SampleProfile {
            sample_regions,
            flank,
            window_size,
            min_mapq,
            seed,
        } => !any_target_contig(contigs, targets) || (all_flank_ok(targets, flank)
            && all_flank_ok(sample_regions@, flank) && (forall|i: int|
            0 <= i < targets.len() ==> profile_region_ok(
                contigs,
                #[trigger] clip_seq(targets, flank)[i],
                clip_seq(sample_regions@, flank),
                window_size as int,
            ))),
    }
}

/// The set of read-pair names the sampling decisions keep under the given
/// mode; the sample-profile mode builds no global keep set.
pub open spec fn mode_keep_set(
    recs: Seq<RecView>,
    contigs: Seq<Contig>,
    targets: Seq<Region>,
    mode: CalibrationMode,
) -> Set<Seq<char>> {
    let tids = sequin_tid_set(contigs, targets);
    match mode {
        CalibrationMode::FixedCoverage { fold_coverage, seed } => scan_regions(
            scan_state(Set::empty(), Set::empty(), 0),
            recs,
            contigs,
            targets,
            spec_probs(recs, contigs, targets, None, fold_coverage),
            seed,
            tids,
        ).keep,
        CalibrationMode::SampleMeanCoverage { sample_regions, seed } => scan_regions(
            scan_state(Set::empty(), Set::empty(), 0),
            recs,
            contigs,
            targets,
            spec_probs(recs, contigs, targets, Some(sample_regions@), 0),
            seed,
            tids,
        ).keep,
        CalibrationMode::SampleProfile { .. } => Set::empty(),
    }
}

/// Determinism: the calibrated output is a function of the record stream,
/// the header, the target regions, the mode (seed included) and the
/// exclusion switch. Two runs over equal inputs yield equal outputs; with
/// [`calibrate`]'s contract, two successful calls on equal inputs return
/// records with equal values.
pub proof fn lemma_calibrate_deterministic(
    recs: Seq<RecView>,
    contigs: Seq<Contig>,
    targets: Seq<Region>,
    mode1: CalibrationMode,
    mode2: CalibrationMode,
    exclude_uncalibrated_reads: bool,
    out1: Seq<RecView>,
    out2: Seq<RecView>,
)
    requires
        mode1 == mode2,
        out1 == calibrate_out(recs, contigs, targets, mode1, exclude_uncalibrated_reads),
        out2 == calibrate_out(recs, contigs, targets, mode2, exclude_uncalibrated_reads),
    ensures
        out1 == out2,
{
}

/// Pair-completeness of the fixed and sample-mean modes: once the sampling
/// decisions keep a read-pair name, the final pass writes every record of
/// the stream bearing that name — in particular both mates of the pair.
pub proof fn lemma_pair_completeness(
    recs: Seq<RecView>,
    contigs: Seq<Contig>,
    targets: Seq<Region>,
    mode: CalibrationMode,
    exclude_uncalibrated_reads: bool,
    i: int,
    j: int,
)
    requires
        !(mode matches CalibrationMode::SampleProfile { .. }),
        0 <= i < recs.len(),
        0 <= j < recs.len(),
        recs[j].qname == recs[i].qname,
        mode_keep_set(recs, contigs, targets, mode).contains(recs[i].qname),
    ensures
        calibrate_out(recs, contigs, targets, mode, exclude_uncalibrated_reads).contains(recs[i]),
        calibrate_out(recs, contigs, targets, mode, exclude_uncalibrated_reads).contains(recs[j]),
{
    let tids = sequin_tid_set(contigs, targets);
    let keep = mode_keep_set(recs, contigs, targets, mode);
    let pred = |r: RecView|
        keep.contains(r.qname) || (!tids.contains(r.mtid as int) && !exclude_uncalibrated_reads);
    recs.lemma_filter_contains(pred, i);
    recs.lemma_filter_contains(pred, j);
    match mode {
        CalibrationMode::FixedCoverage { .. } => {
            assert(calibrate_out(recs, contigs, targets, mode, exclude_uncalibrated_reads)
                == final_pass(recs, keep, tids, exclude_uncalibrated_reads));
        },
        CalibrationMode::SampleMeanCoverage { .. } => {
            assert(calibrate_out(recs, contigs, targets, mode, exclude_uncalibrated_reads)
                == final_pass(recs, keep, tids, exclude_uncalibrated_reads));
        },
        CalibrationMode::SampleProfile { .. } => {},
    }
}

/// Pair-completeness of the sample-profile mode: once a region's windowed
/// selection keeps a read-pair name, the region's output holds every record
/// of that region bearing the name — in particular both mates, wherever
/// both start in the region.
pub proof fn lemma_profile_pair_completeness(
    recs: Seq<RecView>,
    contigs: Seq<Contig>,
    target: Region,
    sample: Region,
    ws: int,
    min_mapq: u8,
    seed: u64,
    i: int,
    j: int,
)
    requires
        ({
            let records = recs.filter(
                |x: RecView| in_region(
                    x,
                    spec_tid(contigs, target.contig@),
                    target.beg as int,
                    target.end as int,
                ),
            );
            let rev = rev_starts(recs, contigs, sample, ws, min_mapq);
            let nwin_t = win_count(target.beg as int, target.end as int, ws);
            let kmax = if nwin_t <= rev.len() {
                nwin_t
            } else {
                rev.len() as int
            };
            let keep = keep_names_upto(records, target.beg as int, ws, rev, seed, kmax);
            &&& 0 <= i < records.len()
            &&& 0 <= j < records.len()
            &&& records[j].qname == records[i].qname
            &&& keep.contains(records[i].qname)
        }),
    ensures
        ({
            let records = recs.filter(
                |x: RecView| in_region(
                    x,
                    spec_tid(contigs, target.contig@),
                    target.beg as int,
                    target.end as int,
                ),
            );
            let out = profile_region_out(recs, contigs, target, sample, ws, min_mapq, seed);
            out.contains(records[i]) && out.contains(records[j])
        }),
{
    let records = recs.filter(
        |x: RecView| in_region(
            x,
            spec_tid(contigs, target.contig@),
            target.beg as int,
            target.end as int,
        ),
    );
    let rev = rev_starts(recs, contigs, sample, ws, min_mapq);
    let nwin_t = win_count(target.beg as int, target.end as int, ws);
    let kmax = if nwin_t <= rev.len() {
        nwin_t
    } else {
        rev.len() as int
    };
    let keep = keep_names_upto(records, target.beg as int, ws, rev, seed, kmax);
    records.lemma_filter_contains(|x: RecView| keep.contains(x.qname), i);
    records.lemma_filter_contains(|x: RecView| keep.contains(x.qname), j);
}

/// Calibrates the record stream: applies the mode's sampling decisions over
/// the target regions, then assembles the output in one pass over every
/// record. The result is a deterministic function of the inputs and the
/// mode's seed.
#[verifier::loop_isolation(false)]
pub fn calibrate(
    data: &AlignmentData,
    target_regions: &[Region],
    mode: CalibrationMode,
    exclude_uncalibrated_reads: bool,
) -> (res: Result<Vec<Rec>, Error>)
    requires
        data.wf(),
        data.records@.len() <= u32::MAX,
        regions_small(target_regions@),
        match mode {
            CalibrationMode::SampleMeanCoverage { sample_regions, .. } => regions_small(
                sample_regions@,
            ),
            CalibrationMode::SampleProfile { window_size, .. } => window_size >= 1,
            _ => true,
        },
    ensures
        res is Ok <==> calibrate_ok(data.recs(), data.contigs@, target_regions@, mode),
        res matches Ok(v) ==> views(v@) == calibrate_out(
            data.recs(),
            data.contigs@,
            target_regions@,
            mode,
            exclude_uncalibrated_reads,
        ),
{
    let ghost recs = data.recs();
    let ghost contigs = data.contigs@;
    let ghost tids_spec = sequin_tid_set(contigs, target_regions@);
    // The calibrated contigs: header indices named by some target region.
    let mut sequin_tids: Vec<i32> = Vec::new();
    let mut t: usize = 0;
    while t < data.contigs.len()
        invariant
            0 <= t <= data.contigs@.len(),
            data.contigs@.len() <= i32::MAX,
            forall|u: int|
                0 <= u < sequin_tids@.len() ==> 0 <= (#[trigger] sequin_tids@[u]) < t,
            forall|u: int|
                0 <= u < t ==> (tids_spec.contains(u) <==> exists|m: int|
                    0 <= m < sequin_tids@.len() && (#[trigger] sequin_tids@[m]) as int == u),
        decreases data.contigs@.len() - t,
    {
        let mut j: usize = 0;
        let mut found = false;
        while j < target_regions.len()
            invariant
                0 <= j <= target_regions@.len(),
                0 <= t < data.contigs@.len(),
                found == exists|jj: int|
                    0 <= jj < j && (#[trigger] target_regions@[jj]).contig@ == data.contigs@[
                    t as int].name@,
            decreases target_regions@.len() - j,
        {
            if target_regions[j].contig.as_str().eq(data.contigs[t].name.as_str()) {
                found = true;
                break ;
            }
            j = j + 1;
        }
        let ghost old_tids = sequin_tids@;
        if found {
            sequin_tids.push(t as i32);
        }
        proof {
            assert forall|u: int| 0 <= u < t + 1 implies (tids_spec.contains(u) <==> exists|
                mm: int,
            |
                0 <= mm < sequin_tids@.len() && (#[trigger] sequin_tids@[mm]) as int == u) by {
                if u < t {
                    if tids_spec.contains(u) {
                        let mm = choose|mm: int|
                            0 <= mm < old_tids.len() && (#[trigger] old_tids[mm]) as int == u;
                        assert(sequin_tids@[mm] as int == u);
                    }
                    if exists|mm: int|
                        0 <= mm < sequin_tids@.len() && (#[trigger] sequin_tids@[mm]) as int
                            == u {
                        let mm = choose|mm: int|
                            0 <= mm < sequin_tids@.len() && (#[trigger] sequin_tids@[mm]) as int
                                == u;
                        assert(mm < old_tids.len());
                        assert(old_tids[mm] as int == u);
                    }
                } else {
                    if found {
                        let jj = choose|jj: int|
                            0 <= jj < target_regions@.len() && (#[trigger] target_regions@[
                            jj]).contig@ == data.contigs@[t as int].name@;
                        assert(tids_spec.contains(t as int));
                        assert(sequin_tids@[sequin_tids@.len() - 1] as int == t as int);
                    } else {
                        assert(!tids_spec.contains(t as int));
                        assert forall|mm: int| 0 <= mm < sequin_tids@.len() implies (
                        #[trigger] sequin_tids@[mm]) as int != u by {
                            assert(sequin_tids@[mm] < t);
                        }
                    }
                }
            }
        }
        t = t + 1;
    }
    proof {
        assert forall|u: int| #[trigger]
            tid_set(sequin_tids@).contains(u) <==> tids_spec.contains(u) by {
            if tid_set(sequin_tids@).contains(u) {
                let m = choose|m: int|
                    0 <= m < sequin_tids@.len() && (#[trigger] sequin_tids@[m]) as int == u;
                assert(0 <= u < data.contigs@.len());
            }
            if tids_spec.contains(u) {
                assert(0 <= u < data.contigs@.len());
            }
        }
        assert(tid_set(sequin_tids@) =~= tids_spec);
    }
    let mut keep = NameSet::new();
    let mut profile_part: Vec<Rec> = Vec::new();
    match &mode {
        CalibrationMode::FixedCoverage { fold_coverage, seed } => {
            match calibrate_by_fixed_coverage(
                data,
                target_regions,
                None,
                &mut keep,
                &sequin_tids,
                *fold_coverage,
                *seed,
            ) {
                Ok(()) => (),
                Err(e) => {
                    return Err(e);
                },
            }
        },
        CalibrationMode::SampleMeanCoverage { sample_regions, seed } => {
            match calibrate_by_fixed_coverage(
                data,
                target_regions,
                Some(sample_regions.as_slice()),
                &mut keep,
                &sequin_tids,
                0,
                *seed,
            ) {
                Ok(()) => (),
                Err(e) => {
                    return Err(e);
                },
            }
        },
        CalibrationMode::SampleProfile {
            sample_regions,
            flank,
            window_size,
            min_mapq,
            seed,
        } => {
            match calibrate_by_sample_profile(
                data,
                target_regions,
                sample_regions.as_slice(),
                *flank,
                *window_size,
                *min_mapq,
                *seed,
            ) {
                Ok(v) => {
                    profile_part = v;
                },
                Err(e) => {
                    return Err(e);
                },
            }
        },
    }
    // Final assembly: one pass over every record.
    let ghost keepset = keep@;
    let ghost fpred = |r: RecView|
        keepset.contains(r.qname) || (!tids_spec.contains(r.mtid as int)
            && !exclude_uncalibrated_reads);
    let ghost base = views(profile_part@);
    let mut out = profile_part;
    let mut m: usize = 0;
    proof {
        reveal(Seq::filter);
        assert(recs.take(0).filter(fpred) =~= Seq::<RecView>::empty());
        assert(views(out@) =~= base + recs.take(0).filter(fpred));
    }
    while m < data.records.len()
        invariant
            0 <= m <= data.records@.len(),
            views(out@) == base + recs.take(m as int).filter(fpred),
        decreases data.records@.len() - m,
    {
        let r = &data.records[m];
        proof {
            crate::records::lemma_filter_take_step(recs, fpred, m as int);
            assert(recs[m as int] == data.records@[m as int]@);
        }
        if keep.contains(r.qname.as_str()) {
            let ghost prev = views(out@);
            out.push(r.duplicate());
            assert(views(out@) =~= prev.push(data.records@[m as int]@));
        } else if !tids_contain(&sequin_tids, r.mtid) && !exclude_uncalibrated_reads {
            let ghost prev = views(out@);
            out.push(r.duplicate());
            assert(views(out@) =~= prev.push(data.records@[m as int]@));
        }
        m = m + 1;
    }
    proof {
        assert(recs.take(data.records@.len() as int) =~= recs);
        assert(views(out@) == base + final_pass(
            recs,
            keepset,
            tids_spec,
            exclude_uncalibrated_reads,
        ));
    }
    Ok(out)
}

} // verus!
