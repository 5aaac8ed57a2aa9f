//! Per-base depth over a region, and the delimited coverage report.
//!
//! Depth is CIGAR-aware: a record contributes one unit at each reference
//! position that a match, equal or diff operation spans; insertions, clips
//! and padding consume none, while deletions and reference skips advance the
//! cursor silently. A record counts only if it passes the flag policy and
//! the mapping-quality floor.

use crate::errors::Error;
use crate::numfmt::dec_rep;
use crate::numfmt::push_decimal;
use crate::numfmt::two_places;
use crate::records::lemma_filter_take_step;
use crate::records::op_covers;
use crate::records::passes_flags;
use crate::records::ref_advance;
use crate::records::views;
use crate::records::AlignmentData;
use crate::records::CigarOp;
use crate::records::Contig;
use crate::records::Rec;
use crate::records::RecView;
use crate::region::flank_err_text;
use crate::region::flank_ok;
use crate::region::flanked_bounds;
use crate::region::Region;
use vstd::prelude::*;
use vstd::string::*;

verus! {

/// Whether CIGAR operations starting at reference position `cur` place a
/// base on reference position `pos`.
pub open spec fn cigar_covers(cigar: Seq<CigarOp>, cur: int, pos: int) -> bool
    decreases cigar.len(),
{
    if cigar.len() == 0 {
        false
    } else {
        (op_covers(cigar[0]) && cur <= pos < cur + ref_advance(cigar[0])) || cigar_covers(
            cigar.skip(1),
            cur + ref_advance(cigar[0]),
            pos,
        )
    }
}

/// Whether the record's alignment places a base on reference position `pos`.
pub open spec fn covers(r: RecView, pos: int) -> bool {
    cigar_covers(r.cigar, r.pos as int, pos)
}

/// Whether the record counts toward depth at `pos` on contig `tid`.
pub open spec fn counts_at(r: RecView, tid: int, pos: int, min_mapq: u8) -> bool {
    r.tid == tid && passes_flags(r) && r.mapq >= min_mapq && covers(r, pos)
}

/// The read depth at `pos` on contig `tid`: how many records of `recs` count
/// there.
pub open spec fn depth_at(recs: Seq<RecView>, tid: int, pos: int, min_mapq: u8) -> nat {
    recs.filter(|r: RecView| counts_at(r, tid, pos, min_mapq)).len()
}

/// Whether the record's alignment places a base on position `pos`.
#[verifier::loop_isolation(false)]
pub fn record_covers(r: &Rec, pos: u64) -> (b: bool)
    ensures
        b == covers(r@, pos as int),
{
    let mut cur: i128 = r.pos as i128;
    let mut j: usize = 0;
    assert(r@.cigar.skip(0) =~= r@.cigar);
    while j < r.cigar.len()
        invariant
            0 <= j <= r.cigar@.len(),
            r.pos as int <= cur <= r.pos as int + (j as int) * 0x1_0000_0000,
            covers(r@, pos as int) == cigar_covers(r@.cigar.skip(j as int), cur as int, pos as int),
        decreases r.cigar@.len() - j,
    {
        let op = r.cigar[j];
        let (advance, places): (u32, bool) = match op {
            CigarOp::Match(n) => (n, true),
            CigarOp::Equal(n) => (n, true),
            CigarOp::Diff(n) => (n, true),
            CigarOp::Del(n) => (n, false),
            CigarOp::RefSkip(n) => (n, false),
            CigarOp::Ins(_) => (0, false),
            CigarOp::SoftClip(_) => (0, false),
            CigarOp::HardClip(_) => (0, false),
            CigarOp::Pad(_) => (0, false),
        };
        proof {
            assert(r@.cigar.skip(j as int)[0] == r@.cigar[j as int]);
            assert(r@.cigar.skip(j as int).skip(1) =~= r@.cigar.skip(j as int + 1));
            assert((j as int) * 0x1_0000_0000 + 0x1_0000_0000 == (j as int + 1) * 0x1_0000_0000)
                by (nonlinear_arith);
            assert((j as int + 1) * 0x1_0000_0000 <= 0x1_0000_0000_0000_0000_0000_0000)
                by (nonlinear_arith)
                requires j as int + 1 <= usize::MAX as int + 1;
        }
        if places && pos as i128 >= cur && (pos as i128) < cur + advance as i128 {
            return true;
        }
        cur = cur + advance as i128;
        j = j + 1;
    }
    assert(r@.cigar.skip(r.cigar@.len() as int) =~= Seq::<CigarOp>::empty());
    false
}

/// The read depth at `pos` on contig `tid` among `recs`.
#[verifier::loop_isolation(false)]
pub fn depth_of(recs: &[Rec], tid: i32, pos: u64, min_mapq: u8) -> (d: usize)
    ensures
        d == depth_at(views(recs@), tid as int, pos as int, min_mapq),
{
    let ghost pred = |r: RecView| counts_at(r, tid as int, pos as int, min_mapq);
    let ghost all = views(recs@);
    let mut d: usize = 0;
    let mut i: usize = 0;
    proof {
        reveal(Seq::filter);
        assert(all.take(0).filter(pred) =~= Seq::<RecView>::empty());
    }
    while i < recs.len()
        invariant
            0 <= i <= recs@.len(),
            d <= i,
            d == all.take(i as int).filter(pred).len(),
        decreases recs@.len() - i,
    {
        let r = &recs[i];
        proof {
            lemma_filter_take_step(all, pred, i as int);
            assert(all[i as int] == recs@[i as int]@);
        }
        if r.tid == tid && r.flags & crate::records::FLAG_EXCLUDE == 0 && r.mapq >= min_mapq {
            if record_covers(r, pos) {
                d = d + 1;
            }
        }
        i = i + 1;
    }
    assert(all.take(recs@.len() as int) =~= all);
    d
}

/// Per-base coverage of a region, the region kept beside it.
#[derive(Debug)]
pub struct RegionCoverage {
    /// The region the coverage was measured over, untrimmed.
    pub region: Region,
    /// Depth at each position of the measured interval, in order.
    pub coverage: Vec<u32>,
}

/// Whether `t` is the index of the first contig named `name`.
pub open spec fn is_first_tid(contigs: Seq<Contig>, name: Seq<char>, t: int) -> bool {
    &&& 0 <= t < contigs.len()
    &&& contigs[t].name@ == name
    &&& forall|j: int| 0 <= j < t ==> (#[trigger] contigs[j]).name@ != name
}

/// Whether some contig carries the given name.
pub open spec fn contig_present(contigs: Seq<Contig>, name: Seq<char>) -> bool {
    exists|t: int| is_first_tid(contigs, name, t)
}

/// At most one index is the first contig with a given name.
pub proof fn lemma_first_tid_unique(contigs: Seq<Contig>, name: Seq<char>, t1: int, t2: int)
    requires
        is_first_tid(contigs, name, t1),
        is_first_tid(contigs, name, t2),
    ensures
        t1 == t2,
{
}

/// The sum of all depths over the interval `[beg, beg + n)`.
pub open spec fn depth_sum(recs: Seq<RecView>, tid: int, beg: int, n: int, min_mapq: u8) -> int
    decreases n,
{
    if n <= 0 {
        0
    } else {
        depth_sum(recs, tid, beg, n - 1, min_mapq) + depth_at(recs, tid, beg + n - 1, min_mapq)
    }
}

/// A vector that holds the depth at each position of an interval sums to the
/// interval's depth sum.
pub proof fn lemma_depth_sum(
    s: Seq<u32>,
    recs: Seq<RecView>,
    tid: int,
    beg: int,
    min_mapq: u8,
)
    requires
        forall|k: int|
            0 <= k < s.len() ==> (#[trigger] s[k]) as int == depth_at(recs, tid, beg + k, min_mapq),
    ensures
        crate::stats::sum_of(s) == depth_sum(recs, tid, beg, s.len() as int, min_mapq),
    decreases s.len(),
{
    if s.len() > 0 {
        lemma_depth_sum(s.drop_last(), recs, tid, beg, min_mapq);
    }
}

/// The first contig index carrying the given name; meaningful only when one
/// exists.
pub open spec fn spec_tid(contigs: Seq<Contig>, name: Seq<char>) -> int {
    choose|t: int| is_first_tid(contigs, name, t)
}

/// The message reported when a region's contig is missing from the header.
pub open spec fn missing_contig_text(name: Seq<char>) -> Seq<char> {
    "Chromosome "@ + name + " not found in BAM header"@
}

/// Whether `cov` is the correct per-base coverage for `region` trimmed by
/// `flank`, measured over `recs` with the given mapping-quality floor.
pub open spec fn coverage_correct(
    recs: Seq<RecView>,
    contigs: Seq<Contig>,
    region: Region,
    min_mapq: u8,
    flank: u64,
    cov: RegionCoverage,
) -> bool {
    let t = spec_tid(contigs, region.contig@);
    &&& cov.coverage@.len() == region.end - flank - (region.beg + flank)
    &&& forall|k: int|
        0 <= k < cov.coverage@.len() ==> (#[trigger] cov.coverage@[k]) as int == depth_at(
            recs,
            t,
            region.beg + flank + k,
            min_mapq,
        )
}

impl RegionCoverage {
    /// Builds a coverage result from its parts.
    pub fn new(contig: &str, start: u64, end: u64, name: &str, coverage: Vec<u32>) -> (c:
        RegionCoverage)
        ensures
            c.region.contig@ == contig@,
            c.region.beg == start,
            c.region.end == end,
            c.region.name@ == name@,
            c.coverage == coverage,
    {
        RegionCoverage { region: Region::new(contig, start, end, name), coverage }
    }
}

/// Measures per-base depth over `region` trimmed by `flank` bases on each
/// side, counting records that pass the flag policy and have mapping quality
/// at least `min_mapq`.
///
/// Fails when trimming empties the region, or when the region's contig is
/// not in the header; each error names the region or contig.
#[verifier::loop_isolation(false)]
pub fn coverage_for_region(
    data: &AlignmentData,
    region: &Region,
    min_mapq: u8,
    flank: u64,
) -> (res: Result<RegionCoverage, Error>)
    requires
        data.wf(),
        data.records@.len() <= u32::MAX,
    ensures
        res is Ok <==> (flank_ok(*region, flank) && (exists|t: int|
            is_first_tid(data.contigs@, region.contig@, t))),
        res matches Ok(cov) ==> {
            &&& cov.region.contig@ == region.contig@
            &&& cov.region.beg == region.beg
            &&& cov.region.end == region.end
            &&& cov.region.name@ == region.name@
            &&& coverage_correct(data.recs(), data.contigs@, *region, min_mapq, flank, cov)
        },
        res matches Err(e) ==> (e matches Error::Bedcov { msg } && msg@ == (if !flank_ok(
            *region,
            flank,
        ) {
            flank_err_text(*region, flank)
        } else {
            missing_contig_text(region.contig@)
        })),
{
    let (beg, end) = match flanked_bounds(region, flank) {
        Ok(b) => b,
        Err(e) => {
            return Err(e);
        },
    };
    let tid: i32 = match data.tid(region.contig.as_str()) {
        Some(t) => t,
        None => {
            assert(forall|t: int| !is_first_tid(data.contigs@, region.contig@, t));
            proof {
                reveal_strlit("Chromosome ");
                reveal_strlit(" not found in BAM header");
            }
            let msg = String::from_str("Chromosome ").concat(region.contig.as_str()).concat(
                " not found in BAM header",
            );
            return Err(Error::Bedcov { msg });
        },
    };
    let mut coverage: Vec<u32> = Vec::new();
    let mut p: u64 = beg;
    while p < end
        invariant
            beg <= p <= end,
            coverage@.len() == p - beg,
            forall|k: int|
                0 <= k < coverage@.len() ==> (#[trigger] coverage@[k]) as int == depth_at(
                    data.recs(),
                    tid as int,
                    beg + k,
                    min_mapq,
                ),
        decreases end - p,
    {
        let d = depth_of(self_records(data), tid, p, min_mapq);
        proof {
            data.recs().lemma_filter_len(
                |r: RecView| counts_at(r, tid as int, p as int, min_mapq),
            );
        }
        coverage.push(d as u32);
        p = p + 1;
    }
    let out = RegionCoverage { region: region.duplicate(), coverage };
    proof {
        assert(is_first_tid(data.contigs@, region.contig@, tid as int));
        lemma_first_tid_unique(
            data.contigs@,
            region.contig@,
            tid as int,
            spec_tid(data.contigs@, region.contig@),
        );
        assert(coverage_correct(data.recs(), data.contigs@, *region, min_mapq, flank, out));
    }
    Ok(out)
}

/// The record list of an alignment source, as a slice.
fn self_records(data: &AlignmentData) -> (r: &[Rec])
    ensures
        r@ == data.records@,
{
    data.records.as_slice()
}

/// An exact non-negative rational: `num / den`.
#[derive(Clone, Copy, Debug, PartialEq, Eq, Structural)]
pub struct Ratio {
    pub num: u128,
    pub den: u128,
}

impl RegionCoverage {
    /// The least depth, if the interval is non-empty.
    pub fn min(&self) -> (o: Option<u32>)
        ensures
            o == if self.coverage@.len() == 0 {
                Option::<u32>::None
            } else {
                Option::Some(crate::stats::min_of(self.coverage@))
            },
    {
        crate::stats::min_vec(&self.coverage)
    }

    /// The greatest depth, if the interval is non-empty.
    pub fn max(&self) -> (o: Option<u32>)
        ensures
            o == if self.coverage@.len() == 0 {
                Option::<u32>::None
            } else {
                Option::Some(crate::stats::max_of(self.coverage@))
            },
    {
        crate::stats::max_vec(&self.coverage)
    }

    /// The mean depth as an exact rational, absent for an empty interval.
    pub fn mean(&self) -> (o: Option<Ratio>)
        ensures
            match o {
                None => self.coverage@.len() == 0,
                Some(r) => self.coverage@.len() > 0 && r.num
                    == crate::stats::sum_of(self.coverage@) && r.den == self.coverage@.len(),
            },
    {
        if self.coverage.len() == 0 {
            None
        } else {
            proof {
                crate::stats::lemma_sum_bounds(self.coverage@);
            }
            let num = crate::stats::sum_vec(&self.coverage);
            Some(Ratio { num, den: self.coverage.len() as u128 })
        }
    }

    /// The population standard deviation in fixed two-decimal notation,
    /// absent for an empty interval.
    pub fn std_dev(&self) -> (o: Option<String>)
        requires
            self.coverage@.len() < 0x1_0000_0000,
        ensures
            match o {
                None => self.coverage@.len() == 0,
                Some(s) => self.coverage@.len() > 0 && s@ == two_places(
                    crate::stats::std_scaled(self.coverage@),
                ),
            },
    {
        if self.coverage.len() == 0 {
            None
        } else {
            let mut s = String::new();
            crate::stats::push_std(&mut s, &self.coverage);
            Some(s)
        }
    }

    /// The coefficient of variation in fixed two-decimal notation, absent
    /// whenever the mean is zero.
    pub fn cv(&self) -> (o: Option<String>)
        requires
            self.coverage@.len() < 0x1_0000_0000,
        ensures
            match o {
                None => crate::stats::sum_of(self.coverage@) == 0,
                Some(s) => crate::stats::sum_of(self.coverage@) > 0 && s@ == two_places(
                    crate::stats::cv_scaled(self.coverage@),
                ),
            },
    {
        proof {
            crate::stats::lemma_sum_bounds(self.coverage@);
        }
        let total = crate::stats::sum_vec(&self.coverage);
        if total == 0 {
            None
        } else {
            let mut s = String::new();
            crate::stats::push_cv(&mut s, &self.coverage);
            Some(s)
        }
    }

    /// The fraction of positions with depth at least `threshold`, as an
    /// exact rational; absent for an empty interval.
    pub fn percent_above_threshold(&self, threshold: u32) -> (o: Option<Ratio>)
        ensures
            match o {
                None => self.coverage@.len() == 0,
                Some(r) => self.coverage@.len() > 0 && r.num == crate::stats::count_ge(
                    self.coverage@,
                    threshold,
                ) && r.den == self.coverage@.len(),
            },
    {
        if self.coverage.len() == 0 {
            None
        } else {
            proof {
                if self.coverage@.len() > 0 {
                }
            }
            let num = crate::stats::count_ge_vec(&self.coverage, threshold);
            Some(Ratio { num: num as u128, den: self.coverage.len() as u128 })
        }
    }
}

/// The sequence a threshold list stands for, if one was given.
pub open spec fn thresholds_view(o: Option<Vec<u32>>) -> Option<Seq<u32>> {
    match o {
        Some(v) => Some(v@),
        None => None,
    }
}

/// The threshold columns of the header: one `,pct_gt_<t>` per threshold.
pub open spec fn pct_header_cols(th: Seq<u32>) -> Seq<char>
    decreases th.len(),
{
    if th.len() == 0 {
        Seq::empty()
    } else {
        pct_header_cols(th.drop_last()) + ",pct_gt_"@ + dec_rep(th.last() as int)
    }
}

/// The threshold columns of one row: one rounded fraction per threshold.
pub open spec fn pct_cols(s: Seq<u32>, th: Seq<u32>) -> Seq<char>
    decreases th.len(),
{
    if th.len() == 0 {
        Seq::empty()
    } else {
        pct_cols(s, th.drop_last()) + ","@ + two_places(crate::stats::pct_scaled(s, th.last()))
    }
}

/// The header line of the coverage report.
pub open spec fn csv_header(th: Option<Seq<u32>>) -> Seq<char> {
    "name,chrom,beg,end,min,max,mean,std,cv"@ + (match th {
        Some(t) => pct_header_cols(t),
        None => Seq::empty(),
    }) + "\n"@
}

/// One row of the coverage report.
pub open spec fn csv_row(c: RegionCoverage, th: Option<Seq<u32>>) -> Seq<char> {
    c.region.name@ + ","@ + c.region.contig@ + ","@ + dec_rep(c.region.beg as int) + ","@
        + dec_rep(c.region.end as int) + ","@ + dec_rep(crate::stats::min_of(c.coverage@) as int)
        + ","@ + dec_rep(crate::stats::max_of(c.coverage@) as int) + ","@ + two_places(
        crate::stats::mean_scaled(c.coverage@),
    ) + ","@ + two_places(crate::stats::std_scaled(c.coverage@)) + ","@ + two_places(
        crate::stats::cv_scaled(c.coverage@),
    ) + (match th {
        Some(t) => pct_cols(c.coverage@, t),
        None => Seq::empty(),
    }) + "\n"@
}

/// The rows of the coverage report, in order.
pub open spec fn csv_rows(cs: Seq<RegionCoverage>, th: Option<Seq<u32>>) -> Seq<char>
    decreases cs.len(),
{
    if cs.len() == 0 {
        Seq::empty()
    } else {
        csv_rows(cs.drop_last(), th) + csv_row(cs.last(), th)
    }
}

/// The whole coverage report: header line, then one row per region.
pub open spec fn csv_text(cs: Seq<RegionCoverage>, th: Option<Seq<u32>>) -> Seq<char> {
    csv_header(th) + csv_rows(cs, th)
}

/// Renders the coverage report: `name,chrom,beg,end,min,max,mean,std,cv`,
/// a `pct_gt_<t>` column per requested threshold, one row per region, float
/// fields in fixed two-decimal notation.
#[verifier::loop_isolation(false)]
pub fn write_csv(coverages: &[RegionCoverage], thresholds: Option<Vec<u32>>) -> (out: String)
    requires
        forall|i: int|
            0 <= i < coverages@.len() ==> (#[trigger] coverages@[i]).coverage@.len()
                < 0x1_0000_0000,
    ensures
        out@ == csv_text(coverages@, thresholds_view(thresholds)),
{
    proof {
        reveal_strlit("name,chrom,beg,end,min,max,mean,std,cv");
        reveal_strlit(",pct_gt_");
        reveal_strlit(",");
        reveal_strlit("\n");
    }
    let ghost th = thresholds_view(thresholds);
    let mut out = String::new();
    out.append("name,chrom,beg,end,min,max,mean,std,cv");
    if let Some(ts) = &thresholds {
        let mut j: usize = 0;
        while j < ts.len()
            invariant
                0 <= j <= ts@.len(),
                out@ == "name,chrom,beg,end,min,max,mean,std,cv"@ + pct_header_cols(
                    ts@.take(j as int),
                ),
            decreases ts@.len() - j,
        {
            proof {
                assert(ts@.take(j as int + 1).drop_last() =~= ts@.take(j as int));
            }
            out.append(",pct_gt_");
            push_decimal(&mut out, ts[j] as u128);
            j = j + 1;
        }
        assert(ts@.take(ts@.len() as int) =~= ts@);
    }
    out.append("\n");
    assert(out@ =~= csv_header(th));
    let mut i: usize = 0;
    while i < coverages.len()
        invariant
            0 <= i <= coverages@.len(),
            out@ == csv_header(th) + csv_rows(coverages@.take(i as int), th),
        decreases coverages@.len() - i,
    {
        proof {
            assert(coverages@.take(i as int + 1).drop_last() =~= coverages@.take(i as int));
        }
        push_row(&mut out, &coverages[i], &thresholds);
        i = i + 1;
    }
    assert(coverages@.take(coverages@.len() as int) =~= coverages@);
    out
}

/// Appends one report row for `c`.
#[verifier::loop_isolation(false)]
#[verifier::rlimit(100)]
fn push_row(out: &mut String, c: &RegionCoverage, thresholds: &Option<Vec<u32>>)
    requires
        c.coverage@.len() < 0x1_0000_0000,
    ensures
        final(out)@ == old(out)@ + csv_row(*c, thresholds_view(*thresholds)),
{
    proof {
        reveal_strlit(",");
        reveal_strlit("\n");
    }
    out.append(c.region.name.as_str());
    out.append(",");
    out.append(c.region.contig.as_str());
    out.append(",");
    push_decimal(out, c.region.beg as u128);
    out.append(",");
    push_decimal(out, c.region.end as u128);
    out.append(",");
    let mn = match c.min() {
        Some(m) => m,
        None => 0,
    };
    push_decimal(out, mn as u128);
    out.append(",");
    let mx = match c.max() {
        Some(m) => m,
        None => 0,
    };
    push_decimal(out, mx as u128);
    out.append(",");
    crate::stats::push_mean(out, &c.coverage);
    out.append(",");
    crate::stats::push_std(out, &c.coverage);
    out.append(",");
    crate::stats::push_cv(out, &c.coverage);
    if let Some(ts) = thresholds {
        let ghost base = out@;
        let mut j: usize = 0;
        while j < ts.len()
            invariant
                0 <= j <= ts@.len(),
                out@ == base + pct_cols(c.coverage@, ts@.take(j as int)),
            decreases ts@.len() - j,
        {
            proof {
                assert(ts@.take(j as int + 1).drop_last() =~= ts@.take(j as int));
            }
            out.append(",");
            crate::stats::push_pct(out, &c.coverage, ts[j]);
            j = j + 1;
        }
        assert(ts@.take(ts@.len() as int) =~= ts@);
    }
    out.append("\n");
    assert(out@ =~= old(out)@ + csv_row(*c, thresholds_view(*thresholds)));
}

} // verus!
