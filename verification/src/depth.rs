//! Region depth histograms and the delimited depth report.
//!
//! A depth result pairs each reference position of a (possibly trimmed)
//! region with its read depth, capped at a configurable maximum; its summary
//! statistics come from the full histogram. The report renders one row per
//! region with fixed two-decimal float fields.

use crate::coverage::coverage_for_region;
use crate::coverage::depth_at;
use crate::coverage::is_first_tid;
use crate::coverage::missing_contig_text;
use crate::coverage::spec_tid;
use crate::errors::Error;
use crate::numfmt::dec_rep;
use crate::numfmt::decimal_string;
use crate::numfmt::push_two_places;
use crate::numfmt::two_places;
use crate::records::AlignmentData;
use crate::records::Contig;
use crate::records::RecView;
use crate::region::flank_err_text;
use crate::region::flank_ok;
use crate::region::Region;
use crate::stats::cv_scaled;
use crate::stats::max_of;
use crate::stats::mean_scaled;
use crate::stats::min_of;
use crate::stats::std_scaled;
use crate::stats::sum_of;
use vstd::prelude::*;
use vstd::string::*;

verus! {

/// The depth values of a histogram, in order.
pub open spec fn depths_of(h: Seq<(u32, u32)>) -> Seq<u32> {
    h.map_values(|p: (u32, u32)| p.1)
}

/// The depth `d` capped at `max_depth`, a cap of zero meaning no limit.
pub open spec fn capped(d: int, max_depth: u32) -> u32 {
    let m: u32 = if max_depth == 0 {
        u32::MAX
    } else {
        max_depth
    };
    if d <= m {
        d as u32
    } else {
        m
    }
}

/// Per-position read depth over a region: `(position, depth)` pairs covering
/// the measured interval exactly once, in order.
#[derive(Debug)]
pub struct DepthResult {
    /// One `(position, depth)` pair per position of the measured interval.
    pub histogram: Vec<(u32, u32)>,
    /// The number of positions measured.
    pub len: u32,
}

impl DepthResult {
    /// Builds a result directly from its parts.
    pub fn create_for_test(histogram: Vec<(u32, u32)>, len: u32) -> (d: DepthResult)
        ensures
            d.histogram == histogram,
            d.len == len,
    {
        DepthResult { histogram, len }
    }

    /// The number of positions measured.
    pub fn len(&self) -> (n: u32)
        ensures
            n == self.len,
    {
        self.len
    }

    /// The histogram's depth values as one vector.
    fn depth_vec(&self) -> (v: Vec<u32>)
        ensures
            v@ == depths_of(self.histogram@),
    {
        let mut v: Vec<u32> = Vec::new();
        let mut i: usize = 0;
        while i < self.histogram.len()
            invariant
                0 <= i <= self.histogram@.len(),
                v@ =~= depths_of(self.histogram@.take(i as int)),
            decreases self.histogram@.len() - i,
        {
            v.push(self.histogram[i].1);
            proof {
                assert(v@ =~= depths_of(self.histogram@.take(i as int + 1)));
            }
            i = i + 1;
        }
        assert(self.histogram@.take(self.histogram@.len() as int) =~= self.histogram@);
        v
    }

    /// The least depth, if any position was measured.
    pub fn min(&self) -> (o: Option<u32>)
        ensures
            o == if self.histogram@.len() == 0 {
                Option::<u32>::None
            } else {
                Option::Some(min_of(depths_of(self.histogram@)))
            },
    {
        crate::stats::min_vec(&self.depth_vec())
    }

    /// The greatest depth, if any position was measured.
    pub fn max(&self) -> (o: Option<u32>)
        ensures
            o == if self.histogram@.len() == 0 {
                Option::<u32>::None
            } else {
                Option::Some(max_of(depths_of(self.histogram@)))
            },
    {
        crate::stats::max_vec(&self.depth_vec())
    }

    /// The population standard deviation in fixed two-decimal notation,
    /// absent when nothing was measured.
    pub fn std_dev(&self) -> (o: Option<String>)
        requires
            self.histogram@.len() < 0x1_0000_0000,
        ensures
            match o {
                None => self.histogram@.len() == 0,
                Some(s) => self.histogram@.len() > 0 && s@ == two_places(
                    std_scaled(depths_of(self.histogram@)),
                ),
            },
    {
        let v = self.depth_vec();
        if v.len() == 0 {
            None
        } else {
            let mut s = String::new();
            crate::stats::push_std(&mut s, &v);
            Some(s)
        }
    }

    /// The coefficient of variation in fixed two-decimal notation, absent
    /// whenever the mean is zero.
    pub fn cv(&self) -> (o: Option<String>)
        requires
            self.histogram@.len() < 0x1_0000_0000,
        ensures
            match o {
                None => sum_of(depths_of(self.histogram@)) == 0,
                Some(s) => sum_of(depths_of(self.histogram@)) > 0 && s@ == two_places(
                    cv_scaled(depths_of(self.histogram@)),
                ),
            },
    {
        let v = self.depth_vec();
        proof {
            crate::stats::lemma_sum_bounds(v@);
        }
        let total = crate::stats::sum_vec(&v);
        if total == 0 {
            None
        } else {
            let mut s = String::new();
            crate::stats::push_cv(&mut s, &v);
            Some(s)
        }
    }

    /// The mean depth as an exact rational, absent when nothing was
    /// measured.
    pub fn mean(&self) -> (o: Option<crate::coverage::Ratio>)
        ensures
            match o {
                None => self.histogram@.len() == 0,
                Some(r) => self.histogram@.len() > 0 && r.num == sum_of(
                    depths_of(self.histogram@),
                ) && r.den == self.histogram@.len(),
            },
    {
        let v = self.depth_vec();
        if v.len() == 0 {
            None
        } else {
            let num = crate::stats::sum_vec(&v);
            Some(crate::coverage::Ratio { num, den: v.len() as u128 })
        }
    }
}

/// The capped depth at each position of `region` trimmed by `flank`.
pub open spec fn region_depths(
    recs: Seq<RecView>,
    contigs: Seq<Contig>,
    region: Region,
    min_mapq: u8,
    flank: u64,
    max_depth: u32,
) -> Seq<u32> {
    let t = spec_tid(contigs, region.contig@);
    Seq::new(
        (region.end - flank - (region.beg + flank)) as nat,
        |k: int| capped(depth_at(recs, t, region.beg + flank + k, min_mapq) as int, max_depth),
    )
}

/// Measures the per-position depth of `region` trimmed by `flank` bases on
/// each side, counting records that pass the flag policy and the
/// mapping-quality floor, each position's depth capped at `max_depth`
/// (zero meaning no limit).
///
/// Fails when trimming empties the region or its contig is missing, naming
/// the region or contig.
#[verifier::loop_isolation(false)]
pub fn mean_depth(
    data: &AlignmentData,
    region: &Region,
    flank: u64,
    min_mapq: u8,
    max_depth: u32,
) -> (res: Result<DepthResult, Error>)
    requires
        data.wf(),
        data.records@.len() <= u32::MAX,
        region.end <= u32::MAX,
    ensures
        res is Ok <==> (flank_ok(*region, flank) && (exists|t: int|
            is_first_tid(data.contigs@, region.contig@, t))),
        res matches Ok(d) ==> {
            let ds = region_depths(data.recs(), data.contigs@, *region, min_mapq, flank, max_depth);
            &&& d.len == region.end - flank - (region.beg + flank)
            &&& d.histogram@.len() == d.len
            &&& depths_of(d.histogram@) == ds
            &&& forall|k: int|
                0 <= k < d.histogram@.len() ==> (#[trigger] d.histogram@[k]).0 == region.beg
                    + flank + k
        },
        res matches Err(e) ==> (e matches Error::Bedcov { msg } && msg@ == (if !flank_ok(
            *region,
            flank,
        ) {
            flank_err_text(*region, flank)
        } else {
            missing_contig_text(region.contig@)
        })),
{
    let cov = match coverage_for_region(data, region, min_mapq, flank) {
        Ok(c) => c,
        Err(e) => {
            return Err(e);
        },
    };
    let beg = region.beg + flank;
    let mut histogram: Vec<(u32, u32)> = Vec::new();
    let mut i: usize = 0;
    let n = cov.coverage.len();
    while i < n
        invariant
            0 <= i <= n,
            n == cov.coverage@.len(),
            n == region.end - flank - (region.beg + flank),
            beg == region.beg + flank,
            region.end <= u32::MAX,
            histogram@.len() == i,
            forall|k: int|
                0 <= k < i ==> {
                    &&& (#[trigger] histogram@[k]).0 == beg + k
                    &&& histogram@[k].1 == capped(cov.coverage@[k] as int, max_depth)
                },
        decreases n - i,
    {
        let d = cov.coverage[i];
        let eff: u32 = if max_depth == 0 {
            u32::MAX
        } else {
            max_depth
        };
        let dd: u32 = if d <= eff {
            d
        } else {
            eff
        };
        histogram.push(((beg + i as u64) as u32, dd));
        i = i + 1;
    }
    let out = DepthResult { histogram, len: n as u32 };
    proof {
        assert(depths_of(out.histogram@) =~= region_depths(
            data.recs(),
            data.contigs@,
            *region,
            min_mapq,
            flank,
            max_depth,
        ));
    }
    Ok(out)
}

/// Over a region none of whose positions any record covers (under the flag
/// and mapping-quality policy), the measured depth is zero at every
/// position, so the depth total — and with it the mean — is zero, and the
/// coefficient of variation is undefined. With [`mean_depth`]'s contract
/// this makes the histogram of such a region all-zero over its full length.
pub proof fn lemma_zero_overlap(
    recs: Seq<RecView>,
    contigs: Seq<Contig>,
    region: Region,
    min_mapq: u8,
    flank: u64,
    max_depth: u32,
)
    requires
        forall|i: int, p: int|
            0 <= i < recs.len() ==> !#[trigger] crate::coverage::counts_at(
                recs[i],
                spec_tid(contigs, region.contig@),
                p,
                min_mapq,
            ),
    ensures
        forall|k: int|
            0 <= k < region_depths(recs, contigs, region, min_mapq, flank, max_depth).len()
                ==> #[trigger] region_depths(recs, contigs, region, min_mapq, flank, max_depth)[k]
                == 0,
        sum_of(region_depths(recs, contigs, region, min_mapq, flank, max_depth)) == 0,
{
    let t = spec_tid(contigs, region.contig@);
    let ds = region_depths(recs, contigs, region, min_mapq, flank, max_depth);
    assert forall|k: int| 0 <= k < ds.len() implies #[trigger] ds[k] == 0 by {
        let p = region.beg + flank + k;
        recs.lemma_all_neg_filter_empty(
            |r: RecView| crate::coverage::counts_at(r, t, p, min_mapq),
        );
    }
    lemma_sum_of_zeros(ds);
}

proof fn lemma_sum_of_zeros(s: Seq<u32>)
    requires
        forall|k: int| 0 <= k < s.len() ==> #[trigger] s[k] == 0,
    ensures
        sum_of(s) == 0,
    decreases s.len(),
{
    if s.len() > 0 {
        lemma_sum_of_zeros(s.drop_last());
    }
}

/// The ten report fields of one region: contig, bounds, name, length, then
/// the depth statistics in fixed two-decimal notation.
pub open spec fn depth_row(region: Region, hist: Seq<(u32, u32)>, len: u32) -> Seq<Seq<char>> {
    let ds = depths_of(hist);
    seq![
        region.contig@,
        dec_rep(region.beg as int),
        dec_rep(region.end as int),
        region.name@,
        dec_rep(len as int),
        dec_rep(min_of(ds) as int),
        dec_rep(max_of(ds) as int),
        two_places(mean_scaled(ds)),
        two_places(std_scaled(ds)),
        two_places(cv_scaled(ds)),
    ]
}

/// Builds the report row for one region's depth result, in the header's
/// column order: chrom, beg, end, name, len, min, max, mean, std, cv.
pub fn build_line_for_header(region: &Region, depth_result: &DepthResult) -> (row: Vec<String>)
    requires
        depth_result.histogram@.len() < 0x1_0000_0000,
    ensures
        row@.map_values(|s: String| s@) == depth_row(
            *region,
            depth_result.histogram@,
            depth_result.len,
        ),
{
    let ds = depth_result.depth_vec();
    let mut row: Vec<String> = Vec::new();
    row.push(region.contig.clone());
    row.push(decimal_string(region.beg));
    row.push(decimal_string(region.end));
    row.push(region.name.clone());
    row.push(decimal_string(depth_result.len as u64));
    let mn = match crate::stats::min_vec(&ds) {
        Some(m) => m,
        None => 0,
    };
    row.push(decimal_string(mn as u64));
    let mx = match crate::stats::max_vec(&ds) {
        Some(m) => m,
        None => 0,
    };
    row.push(decimal_string(mx as u64));
    let mut mean = String::new();
    crate::stats::push_mean(&mut mean, &ds);
    row.push(mean);
    let mut std = String::new();
    crate::stats::push_std(&mut std, &ds);
    row.push(std);
    let mut cv = String::new();
    crate::stats::push_cv(&mut cv, &ds);
    row.push(cv);
    proof {
        assert(row@.map_values(|s: String| s@) =~= depth_row(
            *region,
            depth_result.histogram@,
            depth_result.len,
        ));
    }
    row
}

/// What the delimited-text encoder produces for the given rows.
pub uninterp spec fn csv_encoding(rows: Seq<Seq<Seq<char>>>) -> Seq<char>;

/// Relies on `csv::Writer`: encoding rows of plain fields to delimited text
/// is a function of the rows alone.
#[verifier::external_body]
pub fn csv_encode(rows: &Vec<Vec<String>>) -> (r: String)
    ensures
        r@ == csv_encoding(rows.deep_view()),
{
    let mut wtr = csv::Writer::from_writer(Vec::new());
    for row in rows.iter() {
        let _ = wtr.write_record(row.iter().map(|s| s.as_bytes()));
    }
    let bytes = wtr.into_inner().unwrap_or_default();
    String::from_utf8(bytes).unwrap_or_default()
}

/// The header row of the depth report.
pub open spec fn depth_header() -> Seq<Seq<char>> {
    seq![
        "chrom"@,
        "beg"@,
        "end"@,
        "name"@,
        "len"@,
        "min"@,
        "max"@,
        "mean"@,
        "std"@,
        "cv"@,
    ]
}

/// The depth report's rows: the header, then one row per region, in order.
pub open spec fn bedcov_rows_spec(
    recs: Seq<RecView>,
    contigs: Seq<Contig>,
    regions: Seq<Region>,
    min_mapq: u8,
    flank: u64,
    max_depth: u32,
) -> Seq<Seq<Seq<char>>> {
    seq![depth_header()] + regions.map_values(
        |r: Region|
            {
                let ds = region_depths(recs, contigs, r, min_mapq, flank, max_depth);
                seq![
                    r.contig@,
                    dec_rep(r.beg as int),
                    dec_rep(r.end as int),
                    r.name@,
                    dec_rep(ds.len() as int),
                    dec_rep(min_of(ds) as int),
                    dec_rep(max_of(ds) as int),
                    two_places(mean_scaled(ds)),
                    two_places(std_scaled(ds)),
                    two_places(cv_scaled(ds)),
                ]
            },
    )
}

/// The calibration outcome of one region: its observed coverage before
/// calibration, the coverage aimed for, and the coverage measured after.
#[derive(Debug)]
pub struct CalibrationResult {
    pub region: Region,
    pub uncalibrated_coverage: crate::coverage::Ratio,
    pub target_coverage: crate::coverage::Ratio,
    pub calibrated_coverage: crate::coverage::Ratio,
}

/// A mean as a rational, in hundredths, rounded; zero when undefined.
pub open spec fn ratio_scaled(r: crate::coverage::Ratio) -> int {
    if r.den == 0 {
        0
    } else {
        crate::numfmt::rounded_div(100 * r.num, r.den as int)
    }
}

/// Whether a mean's parts are small enough to scale without overflow.
pub open spec fn ratio_small(r: crate::coverage::Ratio) -> bool {
    r.num < 0x1_0000_0000_0000_0000 && r.den < 0x1_0000_0000_0000_0000
}

/// Renders a mean in fixed two-decimal notation.
fn ratio_string(r: &crate::coverage::Ratio) -> (s: String)
    requires
        ratio_small(*r),
    ensures
        s@ == two_places(ratio_scaled(*r)),
{
    let mut s = String::new();
    if r.den == 0 {
        push_two_places(&mut s, 0);
    } else {
        let v = (200 * r.num + r.den) / (2 * r.den);
        push_two_places(&mut s, v);
    }
    s
}

/// The summary report's rows: a header, then one row per region with its
/// coverages in fixed two-decimal notation.
pub open spec fn summary_rows_spec(results: Seq<CalibrationResult>) -> Seq<Seq<Seq<char>>> {
    seq![
        seq![
            "name"@,
            "chrom"@,
            "start"@,
            "end"@,
            "uncalibrated_coverage"@,
            "target_coverage"@,
            "calibrated_coverage"@,
        ],
    ] + results.map_values(
        |r: CalibrationResult|
            seq![
                r.region.name@,
                r.region.contig@,
                dec_rep(r.region.beg as int),
                dec_rep(r.region.end as int),
                two_places(ratio_scaled(r.uncalibrated_coverage)),
                two_places(ratio_scaled(r.target_coverage)),
                two_places(ratio_scaled(r.calibrated_coverage)),
            ],
    )
}

/// Renders the calibration summary: one row per region with its
/// uncalibrated, target and calibrated mean coverage, as delimited text.
#[verifier::loop_isolation(false)]
pub fn write_summary_report(results: &[CalibrationResult]) -> (out: String)
    requires
        forall|i: int|
            0 <= i < results@.len() ==> {
                &&& ratio_small((#[trigger] results@[i]).uncalibrated_coverage)
                &&& ratio_small(results@[i].target_coverage)
                &&& ratio_small(results@[i].calibrated_coverage)
            },
    ensures
        out@ == csv_encoding(summary_rows_spec(results@)),
{
    proof {
        reveal_strlit("name");
        reveal_strlit("chrom");
        reveal_strlit("start");
        reveal_strlit("end");
        reveal_strlit("uncalibrated_coverage");
        reveal_strlit("target_coverage");
        reveal_strlit("calibrated_coverage");
    }
    let ghost spec_rows = summary_rows_spec(results@);
    let mut rows: Vec<Vec<String>> = Vec::new();
    let mut header: Vec<String> = Vec::new();
    header.push(String::from_str("name"));
    header.push(String::from_str("chrom"));
    header.push(String::from_str("start"));
    header.push(String::from_str("end"));
    header.push(String::from_str("uncalibrated_coverage"));
    header.push(String::from_str("target_coverage"));
    header.push(String::from_str("calibrated_coverage"));
    assert(header@.map_values(|s: String| s@) =~= spec_rows[0]);
    rows.push(header);
    let mut i: usize = 0;
    proof {
        assert(rows@.map_values(|v: Vec<String>| v@.map_values(|s: String| s@)) =~= spec_rows.take(
            1,
        ));
    }
    while i < results.len()
        invariant
            0 <= i <= results@.len(),
            rows@.map_values(|v: Vec<String>| v@.map_values(|s: String| s@)) =~= spec_rows.take(
                i as int + 1,
            ),
        decreases results@.len() - i,
    {
        let r = &results[i];
        let mut row: Vec<String> = Vec::new();
        row.push(r.region.name.clone());
        row.push(r.region.contig.clone());
        row.push(decimal_string(r.region.beg));
        row.push(decimal_string(r.region.end));
        row.push(ratio_string(&r.uncalibrated_coverage));
        row.push(ratio_string(&r.target_coverage));
        row.push(ratio_string(&r.calibrated_coverage));
        assert(row@.map_values(|s: String| s@) =~= spec_rows[i as int + 1]);
        let ghost prev = rows@.map_values(|v: Vec<String>| v@.map_values(|s: String| s@));
        rows.push(row);
        proof {
            assert(rows@.map_values(|v: Vec<String>| v@.map_values(|s: String| s@)) =~= prev.push(
                spec_rows[i as int + 1],
            ));
            assert(rows@.map_values(|v: Vec<String>| v@.map_values(|s: String| s@)) =~= spec_rows
                .take(i as int + 2));
        }
        i = i + 1;
    }
    proof {
        assert(spec_rows.take(spec_rows.len() as int) =~= spec_rows);
        assert(rows.deep_view() =~~= spec_rows);
    }
    csv_encode(&rows)
}

/// Renders the depth report for the regions: measures each region's capped
/// depth histogram and encodes the rows as delimited text.
///
/// Fails on the first region that cannot be measured, naming it.
#[verifier::loop_isolation(false)]
pub fn bedcov_report(
    data: &AlignmentData,
    regions: &[Region],
    min_mapq: u8,
    flank: u64,
    max_depth: u32,
) -> (res: Result<String, Error>)
    requires
        data.wf(),
        data.records@.len() <= u32::MAX,
        forall|i: int| 0 <= i < regions@.len() ==> (#[trigger] regions@[i]).end <= u32::MAX,
    ensures
        res is Ok <==> (forall|i: int|
            0 <= i < regions@.len() ==> (flank_ok(#[trigger] regions@[i], flank)
                && crate::coverage::contig_present(data.contigs@, regions@[i].contig@))),
        res matches Ok(s) ==> s@ == csv_encoding(
            bedcov_rows_spec(data.recs(), data.contigs@, regions@, min_mapq, flank, max_depth),
        ),
{
    proof {
        reveal_strlit("chrom");
        reveal_strlit("beg");
        reveal_strlit("end");
        reveal_strlit("name");
        reveal_strlit("len");
        reveal_strlit("min");
        reveal_strlit("max");
        reveal_strlit("mean");
        reveal_strlit("std");
        reveal_strlit("cv");
    }
    let mut rows: Vec<Vec<String>> = Vec::new();
    let mut header: Vec<String> = Vec::new();
    header.push(String::from_str("chrom"));
    header.push(String::from_str("beg"));
    header.push(String::from_str("end"));
    header.push(String::from_str("name"));
    header.push(String::from_str("len"));
    header.push(String::from_str("min"));
    header.push(String::from_str("max"));
    header.push(String::from_str("mean"));
    header.push(String::from_str("std"));
    header.push(String::from_str("cv"));
    assert(header@.map_values(|s: String| s@) =~= depth_header());
    rows.push(header);
    let ghost spec_rows = bedcov_rows_spec(
        data.recs(),
        data.contigs@,
        regions@,
        min_mapq,
        flank,
        max_depth,
    );
    let mut i: usize = 0;
    proof {
        assert(rows@.map_values(|v: Vec<String>| v@.map_values(|s: String| s@)) =~= seq![
            depth_header(),
        ]);
    }
    while i < regions.len()
        invariant
            0 <= i <= regions@.len(),
            forall|j: int|
                0 <= j < i ==> (flank_ok(#[trigger] regions@[j], flank)
                    && crate::coverage::contig_present(data.contigs@, regions@[j].contig@)),
            rows@.map_values(|v: Vec<String>| v@.map_values(|s: String| s@)) =~= spec_rows.take(
                i as int + 1,
            ),
        decreases regions@.len() - i,
    {
        let region = &regions[i];
        let d = match mean_depth(data, region, flank, min_mapq, max_depth) {
            Ok(d) => d,
            Err(e) => {
                return Err(e);
            },
        };
        proof {
            assert(flank_ok(regions@[i as int], flank));
            let t = choose|t: int| is_first_tid(data.contigs@, region.contig@, t);
            assert(region.contig@ == regions@[i as int].contig@);
            assert(is_first_tid(data.contigs@, regions@[i as int].contig@, t));
            assert(crate::coverage::contig_present(data.contigs@, regions@[i as int].contig@));
        }
        let line = build_line_for_header(region, &d);
        let ghost prev = rows@.map_values(|v: Vec<String>| v@.map_values(|s: String| s@));
        rows.push(line);
        proof {
            assert(depths_of(d.histogram@) == region_depths(
                data.recs(),
                data.contigs@,
                regions@[i as int],
                min_mapq,
                flank,
                max_depth,
            ));
            assert(rows@.map_values(|v: Vec<String>| v@.map_values(|s: String| s@)) =~= prev.push(
                spec_rows[i as int + 1],
            ));
            assert(rows@.map_values(|v: Vec<String>| v@.map_values(|s: String| s@)) =~= spec_rows
                .take(i as int + 2));
        }
        i = i + 1;
    }
    proof {
        assert(spec_rows.take(spec_rows.len() as int) =~= spec_rows);
        assert(rows.deep_view() =~~= spec_rows);
    }
    Ok(csv_encode(&rows))
}

} // verus!
