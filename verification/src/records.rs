//! A plain-value model of aligned reads.
//!
//! A record holds exactly what the coverage and calibration logic reads from
//! an aligned read: query name, contig index, position, mapping quality,
//! flags, the mate's contig index and position, and the CIGAR operations.
//! An [`AlignmentData`] bundles a contig table with a record list and offers
//! the region, contig and unmapped views that an indexed reader would.

use vstd::prelude::*;
use vstd::seq_lib::*;
use vstd::string::*;

verus! {

/// The read is paired.
pub const FLAG_PAIRED: u16 = 1;
/// The read itself is unmapped.
pub const FLAG_UNMAPPED: u16 = 4;
/// The read's mate is on the reverse strand.
pub const FLAG_MATE_REVERSE: u16 = 32;
/// The read is first in its template.
pub const FLAG_FIRST_IN_TEMPLATE: u16 = 64;
/// The alignment is secondary.
pub const FLAG_SECONDARY: u16 = 256;
/// The read failed quality control.
pub const FLAG_QCFAIL: u16 = 512;
/// The read is a duplicate.
pub const FLAG_DUPLICATE: u16 = 1024;
/// The alignment is supplementary.
pub const FLAG_SUPPLEMENTARY: u16 = 2048;

/// Unmapped, secondary, quality-failed, duplicate or supplementary: the
/// standard exclusion mask for depth counting.
pub const FLAG_EXCLUDE: u16 = 3844;

/// One CIGAR operation of an alignment.
#[derive(Clone, Copy, Debug, PartialEq, Eq, Structural)]
pub enum CigarOp {
    Match(u32),
    Ins(u32),
    Del(u32),
    RefSkip(u32),
    SoftClip(u32),
    HardClip(u32),
    Pad(u32),
    Equal(u32),
    Diff(u32),
}

/// How many reference positions the operation advances the cursor by.
pub open spec fn ref_advance(op: CigarOp) -> int {
    match op {
        CigarOp::Match(n) => n as int,
        CigarOp::Equal(n) => n as int,
        CigarOp::Diff(n) => n as int,
        CigarOp::Del(n) => n as int,
        CigarOp::RefSkip(n) => n as int,
        CigarOp::Ins(_) => 0,
        CigarOp::SoftClip(_) => 0,
        CigarOp::HardClip(_) => 0,
        CigarOp::Pad(_) => 0,
    }
}

/// Whether the operation places read bases on the reference.
pub open spec fn op_covers(op: CigarOp) -> bool {
    match op {
        CigarOp::Match(_) => true,
        CigarOp::Equal(_) => true,
        CigarOp::Diff(_) => true,
        _ => false,
    }
}

/// One aligned read, reduced to the fields the library reads.
#[derive(Debug)]
pub struct Rec {
    /// The query (read-pair) name.
    pub qname: String,
    /// Index of the contig the read is aligned to.
    pub tid: i32,
    /// Leftmost reference position of the alignment, 0-based.
    pub pos: i64,
    /// Mapping quality.
    pub mapq: u8,
    /// SAM flag bits.
    pub flags: u16,
    /// Index of the contig the mate is aligned to.
    pub mtid: i32,
    /// Leftmost reference position of the mate.
    pub mpos: i64,
    /// The alignment's CIGAR operations.
    pub cigar: Vec<CigarOp>,
}

/// The mathematical value of a record: the same fields, with the name as a
/// character sequence and the CIGAR as a sequence of operations.
#[verifier::ext_equal]
pub ghost struct RecView {
    pub qname: Seq<char>,
    pub tid: i32,
    pub pos: i64,
    pub mapq: u8,
    pub flags: u16,
    pub mtid: i32,
    pub mpos: i64,
    pub cigar: Seq<CigarOp>,
}

impl View for Rec {
    type V = RecView;

    open spec fn view(&self) -> RecView {
        RecView {
            qname: self.qname@,
            tid: self.tid,
            pos: self.pos,
            mapq: self.mapq,
            flags: self.flags,
            mtid: self.mtid,
            mpos: self.mpos,
            cigar: self.cigar@,
        }
    }
}

/// The views of a sequence of records.
pub open spec fn views(s: Seq<Rec>) -> Seq<RecView> {
    s.map_values(|r: Rec| r@)
}

/// Whether the record's flags mark it as a duplicate.
pub open spec fn is_duplicate(r: RecView) -> bool {
    r.flags & FLAG_DUPLICATE != 0
}

/// Whether the record's flags mark it as unmapped.
pub open spec fn is_unmapped(r: RecView) -> bool {
    r.flags & FLAG_UNMAPPED != 0
}

/// Whether the record passes the depth-counting flag policy: none of
/// unmapped, secondary, quality-failed, duplicate, supplementary.
pub open spec fn passes_flags(r: RecView) -> bool {
    r.flags & FLAG_EXCLUDE == 0
}

impl Rec {
    /// Builds a mapped record with the given coordinates, a single
    /// whole-length match of `mlen` bases, and mapping quality 60.
    pub fn new(tid: i32, pos: i64, qname: &str, mlen: u32) -> (r: Rec)
        ensures
            r@.qname == qname@,
            r@.tid == tid,
            r@.pos == pos,
            r@.mapq == 60,
            r@.flags == 0,
            r@.mtid == tid,
            r@.mpos == pos,
            r@.cigar =~= seq![CigarOp::Match(mlen)],
    {
        let mut cigar: Vec<CigarOp> = Vec::new();
        cigar.push(CigarOp::Match(mlen));
        Rec {
            qname: String::from_str(qname),
            tid,
            pos,
            mapq: 60,
            flags: 0,
            mtid: tid,
            mpos: pos,
            cigar,
        }
    }

    /// A copy of this record with the same value.
    pub fn duplicate(&self) -> (r: Rec)
        ensures
            r@ == self@,
    {
        let mut cigar: Vec<CigarOp> = Vec::new();
        let mut i: usize = 0;
        while i < self.cigar.len()
            invariant
                0 <= i <= self.cigar@.len(),
                cigar@ =~= self.cigar@.take(i as int),
            decreases self.cigar@.len() - i,
        {
            cigar.push(self.cigar[i]);
            i = i + 1;
        }
        assert(cigar@ =~= self.cigar@);
        let r = Rec {
            qname: self.qname.clone(),
            tid: self.tid,
            pos: self.pos,
            mapq: self.mapq,
            flags: self.flags,
            mtid: self.mtid,
            mpos: self.mpos,
            cigar,
        };
        assert(r@ =~= self@);
        r
    }

    /// Whether the flags mark the record as a duplicate.
    pub fn duplicate_flag(&self) -> (b: bool)
        ensures
            b == is_duplicate(self@),
    {
        self.flags & FLAG_DUPLICATE != 0
    }
}

/// One reference sequence of the alignment header.
#[derive(Debug)]
pub struct Contig {
    /// The contig's name.
    pub name: String,
    /// The contig's length in bases.
    pub length: u64,
}

/// Whether `s.take(i+1).filter(pred)` extends `s.take(i).filter(pred)` by the
/// element at `i` exactly when the predicate holds of it.
pub proof fn lemma_filter_take_step<A>(s: Seq<A>, pred: spec_fn(A) -> bool, i: int)
    requires
        0 <= i < s.len(),
    ensures
        s.take(i + 1).filter(pred) == if pred(s[i]) {
            s.take(i).filter(pred).push(s[i])
        } else {
            s.take(i).filter(pred)
        },
{
    reveal(Seq::filter);
    assert(s.take(i + 1).drop_last() =~= s.take(i));
    assert(s.take(i + 1).last() == s[i]);
}

/// An in-memory alignment source: a contig table and the records, in file
/// order.
pub struct AlignmentData {
    /// The reference sequences, in header order.
    pub contigs: Vec<Contig>,
    /// All records, in the order the source yields them.
    pub records: Vec<Rec>,
}

/// Whether the record lies on contig `tid` with a start in `[beg, end)`.
pub open spec fn in_region(r: RecView, tid: int, beg: int, end: int) -> bool {
    r.tid == tid && beg <= r.pos < end
}

impl AlignmentData {
    /// The contig table is small enough for contig indices to be `i32`.
    pub open spec fn wf(&self) -> bool {
        self.contigs@.len() <= i32::MAX
    }

    /// The record values held by this source, in order.
    pub open spec fn recs(&self) -> Seq<RecView> {
        views(self.records@)
    }

    /// The number of contigs in the header.
    pub fn target_count(&self) -> (n: usize)
        ensures
            n == self.contigs@.len(),
    {
        self.contigs.len()
    }

    /// The index of the first contig with the given name, if any.
    pub fn tid(&self, name: &str) -> (o: Option<i32>)
        requires
            self.wf(),
        ensures
            match o {
                Some(t) => {
                    &&& 0 <= t < self.contigs@.len()
                    &&& self.contigs@[t as int].name@ == name@
                    &&& forall|j: int|
                        0 <= j < t ==> (#[trigger] self.contigs@[j]).name@ != name@
                },
                None => forall|j: int|
                    0 <= j < self.contigs@.len() ==> (#[trigger] self.contigs@[j]).name@ != name@,
            },
    {
        let mut i: usize = 0;
        while i < self.contigs.len()
            invariant
                0 <= i <= self.contigs@.len(),
                self.contigs@.len() <= i32::MAX,
                forall|j: int| 0 <= j < i ==> (#[trigger] self.contigs@[j]).name@ != name@,
            decreases self.contigs@.len() - i,
        {
            if self.contigs[i].name.as_str().eq(name) {
                return Some(i as i32);
            }
            i = i + 1;
        }
        None
    }

    /// The records on contig `tid` whose start lies in `[beg, end)`, in
    /// source order.
    #[verifier::loop_isolation(false)]
    pub fn fetch_region(&self, tid: i32, beg: u64, end: u64) -> (v: Vec<Rec>)
        ensures
            views(v@) == self.recs().filter(
                |r: RecView| in_region(r, tid as int, beg as int, end as int),
            ),
    {
        let ghost pred = |r: RecView| in_region(r, tid as int, beg as int, end as int);
        let mut v: Vec<Rec> = Vec::new();
        let mut i: usize = 0;
        proof {
            reveal(Seq::filter);
            assert(views(v@) =~= self.recs().take(0).filter(pred));
        }
        while i < self.records.len()
            invariant
                0 <= i <= self.records@.len(),
                views(v@) == self.recs().take(i as int).filter(pred),
            decreases self.records@.len() - i,
        {
            let r = &self.records[i];
            proof {
                lemma_filter_take_step(self.recs(), pred, i as int);
                assert(self.recs()[i as int] == self.records@[i as int]@);
            }
            if r.tid == tid && r.pos >= 0 && (r.pos as u64) >= beg && (r.pos as u64) < end {
                let ghost prev = views(v@);
                let d = r.duplicate();
                v.push(d);
                assert(views(v@) =~= prev.push(self.records@[i as int]@));
            }
            i = i + 1;
        }
        assert(self.recs().take(self.records@.len() as int) =~= self.recs());
        v
    }

    /// All records on contig `tid`, in source order.
    #[verifier::loop_isolation(false)]
    pub fn fetch_contig(&self, tid: i32) -> (v: Vec<Rec>)
        ensures
            views(v@) == self.recs().filter(|r: RecView| r.tid == tid),
    {
        let ghost pred = |r: RecView| r.tid == tid;
        let mut v: Vec<Rec> = Vec::new();
        let mut i: usize = 0;
        proof {
            reveal(Seq::filter);
            assert(views(v@) =~= self.recs().take(0).filter(pred));
        }
        while i < self.records.len()
            invariant
                0 <= i <= self.records@.len(),
                views(v@) == self.recs().take(i as int).filter(pred),
            decreases self.records@.len() - i,
        {
            let r = &self.records[i];
            proof {
                lemma_filter_take_step(self.recs(), pred, i as int);
                assert(self.recs()[i as int] == self.records@[i as int]@);
            }
            if r.tid == tid {
                let ghost prev = views(v@);
                let d = r.duplicate();
                v.push(d);
                assert(views(v@) =~= prev.push(self.records@[i as int]@));
            }
            i = i + 1;
        }
        assert(self.recs().take(self.records@.len() as int) =~= self.recs());
        v
    }

    /// Every record, in source order.
    pub fn fetch_all(&self) -> (v: Vec<Rec>)
        ensures
            views(v@) == self.recs(),
    {
        let mut v: Vec<Rec> = Vec::new();
        let mut i: usize = 0;
        while i < self.records.len()
            invariant
                0 <= i <= self.records@.len(),
                views(v@) =~= self.recs().take(i as int),
            decreases self.records@.len() - i,
        {
            let ghost prev = views(v@);
            v.push(self.records[i].duplicate());
            assert(views(v@) =~= prev.push(self.records@[i as int]@));
            i = i + 1;
        }
        assert(views(v@) =~= self.recs());
        v
    }
}

} // verus!
