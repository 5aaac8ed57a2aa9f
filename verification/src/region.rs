//! Named intervals on reference contigs.
//!
//! A region is a half-open, 0-based interval `[beg, end)` on a named contig,
//! carrying its own identifier. Regions may be trimmed by a flank on both
//! ends; trimming that empties the interval is an error, never a silent clamp.

use crate::errors::Error;
use crate::numfmt::dec_rep;
use crate::numfmt::push_decimal;
use vstd::prelude::*;
use vstd::string::*;

verus! {

/// A named interval on a contig, half-open and 0-based.
#[derive(Debug, PartialEq, Eq)]
pub struct Region {
    pub contig: String,
    pub beg: u64,
    pub end: u64,
    pub name: String,
}

/// The textual form of a region: `contig:beg-end`.
pub open spec fn region_text(r: Region) -> Seq<char> {
    r.contig@ + seq![':'] + dec_rep(r.beg as int) + seq!['-'] + dec_rep(r.end as int)
}

impl Region {
    /// Builds a region from borrowed parts.
    pub fn new(contig: &str, beg: u64, end: u64, name: &str) -> (r: Region)
        ensures
            r.contig@ == contig@,
            r.beg == beg,
            r.end == end,
            r.name@ == name@,
    {
        Region { contig: String::from_str(contig), beg, end, name: String::from_str(name) }
    }

    /// A copy of this region with every field equal.
    pub fn duplicate(&self) -> (r: Region)
        ensures
            r == *self,
    {
        Region {
            contig: self.contig.clone(),
            beg: self.beg,
            end: self.end,
            name: self.name.clone(),
        }
    }

    /// The region rendered as `contig:beg-end`.
    pub fn to_string(&self) -> (s: String)
        ensures
            s@ == region_text(*self),
    {
        proof {
            reveal_strlit(":");
            reveal_strlit("-");
        }
        let mut s = String::new();
        s.append(self.contig.as_str());
        s.append(":");
        push_decimal(&mut s, self.beg as u128);
        s.append("-");
        push_decimal(&mut s, self.end as u128);
        assert(s@ =~= region_text(*self));
        s
    }
}

/// Whether trimming `flank` bases from both ends of `r` leaves a non-empty
/// interval, with no arithmetic overflow.
pub open spec fn flank_ok(r: Region, flank: u64) -> bool {
    &&& r.beg + flank <= u64::MAX
    &&& flank <= r.end
    &&& r.beg + flank < r.end - flank
}

/// The message reported when trimming `flank` bases from `r` fails.
pub open spec fn flank_err_text(r: Region, flank: u64) -> Seq<char> {
    if r.beg + flank > u64::MAX {
        "Region start + flank overflowed for region: "@ + region_text(r)
    } else if flank > r.end {
        "Region end - flank underflowed for region: "@ + region_text(r)
    } else {
        "Region start >= end after applying flank for region: "@ + region_text(r)
    }
}

/// The interval left after trimming `flank` bases from both ends of `r`,
/// or the error describing why none is left.
pub fn flanked_bounds(r: &Region, flank: u64) -> (res: Result<(u64, u64), Error>)
    ensures
        res is Ok <==> flank_ok(*r, flank),
        res is Ok ==> res->Ok_0 == (((r.beg + flank) as u64, (r.end - flank) as u64)),
        res is Err ==> (res->Err_0 matches Error::Bedcov { msg } && msg@ == flank_err_text(
            *r,
            flank,
        )),
{
    proof {
        reveal_strlit("Region start + flank overflowed for region: ");
        reveal_strlit("Region end - flank underflowed for region: ");
        reveal_strlit("Region start >= end after applying flank for region: ");
    }
    if flank > u64::MAX - r.beg {
        let msg = String::from_str("Region start + flank overflowed for region: ").concat(
            r.to_string().as_str(),
        );
        Err(Error::Bedcov { msg })
    } else if flank > r.end {
        let msg = String::from_str("Region end - flank underflowed for region: ").concat(
            r.to_string().as_str(),
        );
        Err(Error::Bedcov { msg })
    } else if r.beg + flank >= r.end - flank {
        let msg = String::from_str("Region start >= end after applying flank for region: ").concat(
            r.to_string().as_str(),
        );
        Err(Error::Bedcov { msg })
    } else {
        Ok((r.beg + flank, r.end - flank))
    }
}

/// Whether `out` is `regions` with `flank` bases trimmed from both ends of
/// every region, names and contigs kept.
pub open spec fn clipped_regions(regions: Seq<Region>, flank: u64, out: Seq<Region>) -> bool {
    &&& out.len() == regions.len()
    &&& forall|i: int|
        0 <= i < regions.len() ==> {
            &&& (#[trigger] out[i]).contig == regions[i].contig
            &&& out[i].beg == regions[i].beg + flank
            &&& out[i].end == regions[i].end - flank
            &&& out[i].name == regions[i].name
        }
}

/// Trims `flank` bases from both ends of every region.
///
/// Fails on the first region that the trim would empty or overflow, naming it.
pub fn clip_regions(regions: &[Region], flank: u64) -> (res: Result<Vec<Region>, Error>)
    ensures
        res is Ok <==> (forall|i: int| 0 <= i < regions@.len() ==> flank_ok(
            #[trigger] regions@[i],
            flank,
        )),
        res is Ok ==> clipped_regions(regions@, flank, res->Ok_0@),
        res is Err ==> exists|i: int|
            {
                &&& 0 <= i < regions@.len()
                &&& !flank_ok(#[trigger] regions@[i], flank)
                &&& (forall|j: int| 0 <= j < i ==> flank_ok(#[trigger] regions@[j], flank))
                &&& (res->Err_0 matches Error::Bedcov { msg } && msg@ == flank_err_text(
                    regions@[i],
                    flank,
                ))
            },
{
    let mut out: Vec<Region> = Vec::new();
    let mut k: usize = 0;
    while k < regions.len()
        invariant
            0 <= k <= regions@.len(),
            forall|j: int| 0 <= j < k ==> flank_ok(#[trigger] regions@[j], flank),
            clipped_regions(regions@.take(k as int), flank, out@),
        decreases regions@.len() - k,
    {
        let r = &regions[k];
        match flanked_bounds(r, flank) {
            Ok((beg, end)) => {
                out.push(
                    Region { contig: r.contig.clone(), beg, end, name: r.name.clone() },
                );
            },
            Err(e) => {
                return Err(e);
            },
        }
        k = k + 1;
        assert(regions@.take(k as int).drop_last() =~= regions@.take(k as int - 1));
    }
    assert(regions@.take(regions@.len() as int) =~= regions@);
    Ok(out)
}

/// Relies on `core::str::from_utf8`: it succeeds exactly on valid UTF-8 and
/// yields the decoded characters.
#[verifier::external_body]
fn bytes_to_str(v: &[u8]) -> (r: Option<&str>)
    ensures
        r is Some <==> vstd::utf8::valid_utf8(v@),
        r matches Some(s) ==> s@ == vstd::utf8::decode_utf8(v@),
{
    core::str::from_utf8(v).ok()
}

/// Whether the byte separates fields of a region list row: space, tab or
/// carriage return.
pub open spec fn is_ws(b: u8) -> bool {
    b == 32 || b == 9 || b == 13
}

/// The length of the leading run of non-separator bytes.
pub open spec fn token_len(l: Seq<u8>) -> int
    decreases l.len(),
{
    if l.len() == 0 || is_ws(l[0]) {
        0
    } else {
        1 + token_len(l.skip(1))
    }
}

/// A token never runs past the row's end.
pub proof fn lemma_token_len(l: Seq<u8>)
    ensures
        0 <= token_len(l) <= l.len(),
    decreases l.len(),
{
    if l.len() > 0 && !is_ws(l[0]) {
        lemma_token_len(l.skip(1));
    }
}

/// The whitespace-separated fields of a row, in order.
pub open spec fn spec_tokens(l: Seq<u8>) -> Seq<Seq<u8>>
    decreases l.len(),
    via spec_tokens_decreases
{
    if l.len() == 0 {
        Seq::empty()
    } else if is_ws(l[0]) {
        spec_tokens(l.skip(1))
    } else {
        seq![l.take(token_len(l))] + spec_tokens(l.skip(token_len(l)))
    }
}

#[via_fn]
proof fn spec_tokens_decreases(l: Seq<u8>) {
    lemma_token_len(l);
    if l.len() > 0 {
        lemma_token_len(l.skip(1));
    }
}

/// The index of the first line feed, or the length if there is none.
pub open spec fn nl_pos(s: Seq<u8>) -> int
    decreases s.len(),
{
    if s.len() == 0 {
        0
    } else if s[0] == 10 {
        0
    } else {
        1 + nl_pos(s.skip(1))
    }
}

/// A line feed is never found past the text's end.
pub proof fn lemma_nl_pos(s: Seq<u8>)
    ensures
        0 <= nl_pos(s) <= s.len(),
        nl_pos(s) < s.len() ==> s[nl_pos(s)] == 10,
        forall|k: int| 0 <= k < nl_pos(s) ==> s[k] != 10,
    decreases s.len(),
{
    if s.len() > 0 && s[0] != 10 {
        lemma_nl_pos(s.skip(1));
        assert forall|k: int| 0 <= k < nl_pos(s) implies s[k] != 10 by {
            if k > 0 {
                assert(s.skip(1)[k - 1] == s[k]);
            }
        }
        if nl_pos(s) < s.len() {
            assert(s.skip(1)[nl_pos(s) - 1] == s[nl_pos(s)]);
        }
    }
}

/// The rows of the text, split at line feeds, with no empty final row.
pub open spec fn spec_lines(s: Seq<u8>) -> Seq<Seq<u8>>
    decreases s.len(),
    via spec_lines_decreases
{
    if s.len() == 0 {
        Seq::empty()
    } else {
        let e = nl_pos(s);
        if e == s.len() {
            seq![s]
        } else {
            seq![s.take(e)] + spec_lines(s.skip(e + 1))
        }
    }
}

#[via_fn]
proof fn spec_lines_decreases(s: Seq<u8>) {
    lemma_nl_pos(s);
}

/// The value of a run of decimal digit bytes, most significant first.
pub open spec fn digits_val(t: Seq<u8>) -> int
    decreases t.len(),
{
    if t.len() == 0 {
        0
    } else {
        digits_val(t.drop_last()) * 10 + (t.last() - 48)
    }
}

/// Whether every byte is a decimal digit.
pub open spec fn all_digits(t: Seq<u8>) -> bool {
    forall|i: int| 0 <= i < t.len() ==> 48 <= #[trigger] t[i] <= 57
}

/// The unsigned integer a field stands for: an optional leading plus sign,
/// then at least one digit, with a value that fits.
pub open spec fn spec_parse_u64(t: Seq<u8>) -> Option<u64> {
    let body = if t.len() >= 1 && t[0] == 43 {
        t.skip(1)
    } else {
        t
    };
    if body.len() == 0 || !all_digits(body) || digits_val(body) > u64::MAX {
        None
    } else {
        Some(digits_val(body) as u64)
    }
}

/// A digit run's value never shrinks as digits are appended.
proof fn lemma_digits_grow(t: Seq<u8>, i: int)
    requires
        0 <= i <= t.len(),
        all_digits(t),
    ensures
        0 <= digits_val(t.take(i)) <= digits_val(t),
    decreases t.len() - i,
{
    if i == t.len() {
        assert(t.take(i) =~= t);
        lemma_digits_nonneg(t);
    } else {
        lemma_digits_grow(t, i + 1);
        lemma_digits_nonneg(t.take(i));
        assert(t.take(i + 1).drop_last() =~= t.take(i));
        assert(digits_val(t.take(i + 1)) == digits_val(t.take(i)) * 10 + (t[i] - 48));
        assert(digits_val(t.take(i)) <= digits_val(t.take(i)) * 10) by (nonlinear_arith)
            requires digits_val(t.take(i)) >= 0;
    }
}

proof fn lemma_digits_nonneg(t: Seq<u8>)
    requires
        all_digits(t),
    ensures
        digits_val(t) >= 0,
    decreases t.len(),
{
    if t.len() > 0 {
        assert(all_digits(t.drop_last()));
        lemma_digits_nonneg(t.drop_last());
        assert(digits_val(t.drop_last()) * 10 >= 0) by (nonlinear_arith)
            requires digits_val(t.drop_last()) >= 0;
    }
}

/// Parses a field as an unsigned integer, exactly as [`spec_parse_u64`]
/// reads it.
#[verifier::loop_isolation(false)]
fn parse_u64(t: &[u8]) -> (o: Option<u64>)
    ensures
        o == spec_parse_u64(t@),
{
    let body: &[u8] = if t.len() >= 1 && t[0] == 43 {
        vstd::slice::slice_subrange(t, 1, t.len())
    } else {
        t
    };
    assert(body@ == (if t@.len() >= 1 && t@[0] == 43 {
        t@.skip(1)
    } else {
        t@
    }));
    if body.len() == 0 {
        return None;
    }
    let mut val: u64 = 0;
    let mut i: usize = 0;
    assert(body@.take(0) =~= Seq::<u8>::empty());
    while i < body.len()
        invariant
            0 <= i <= body@.len(),
            all_digits(body@.take(i as int)),
            val == digits_val(body@.take(i as int)),
        decreases body@.len() - i,
    {
        let b = body[i];
        if b < 48 || b > 57 {
            assert(!all_digits(body@));
            return None;
        }
        proof {
            assert(body@.take(i as int + 1).drop_last() =~= body@.take(i as int));
        }
        let d = (b - 48) as u64;
        if val > (u64::MAX - d) / 10 {
            if all_digits_exec(body, i + 1) {
                proof {
                    assert forall|k: int| 0 <= k < body@.len() implies 48 <= #[trigger] body@[k]
                        <= 57 by {
                        if k <= i as int {
                            assert(body@.take(i as int + 1)[k] == body@[k]);
                        }
                    }
                    lemma_digits_grow(body@, i as int + 1);
                    assert(digits_val(body@.take(i as int + 1)) == val * 10 + d);
                    assert(val * 10 + d > u64::MAX) by (nonlinear_arith)
                        requires val > (u64::MAX - d) / 10 && 0 <= d <= 9 && val <= u64::MAX;
                }
                return None;
            } else {
                assert(!all_digits(body@));
                return None;
            }
        }
        val = val * 10 + d;
        i = i + 1;
    }
    assert(body@.take(body@.len() as int) =~= body@);
    Some(val)
}

/// Whether every byte from `from` on is a decimal digit.
#[verifier::loop_isolation(false)]
fn all_digits_exec(t: &[u8], from: usize) -> (b: bool)
    requires
        from <= t@.len(),
    ensures
        b == (forall|k: int| from <= k < t@.len() ==> 48 <= #[trigger] t@[k] <= 57),
{
    let mut i: usize = from;
    while i < t.len()
        invariant
            from <= i <= t@.len(),
            forall|k: int| from <= k < i ==> 48 <= #[trigger] t@[k] <= 57,
        decreases t@.len() - i,
    {
        if t[i] < 48 || t[i] > 57 {
            return false;
        }
        i = i + 1;
    }
    true
}

/// Splits a row into its whitespace-separated fields.
#[verifier::loop_isolation(false)]
fn tokenize(l: &[u8]) -> (v: Vec<Vec<u8>>)
    ensures
        v@.map_values(|t: Vec<u8>| t@) == spec_tokens(l@),
{
    let mut v: Vec<Vec<u8>> = Vec::new();
    let mut pos: usize = 0;
    assert(l@.skip(0) =~= l@);
    assert(v@.map_values(|t: Vec<u8>| t@) =~= Seq::<Seq<u8>>::empty());
    while pos < l.len()
        invariant
            0 <= pos <= l@.len(),
            spec_tokens(l@) == v@.map_values(|t: Vec<u8>| t@) + spec_tokens(l@.skip(pos as int)),
        decreases l@.len() - pos,
    {
        if is_ws_exec(l[pos]) {
            proof {
                assert(l@.skip(pos as int).skip(1) =~= l@.skip(pos as int + 1));
            }
            pos = pos + 1;
        } else {
            // Find the end of the token.
            let start = pos;
            let mut e: usize = pos;
            while e < l.len() && !is_ws_exec(l[e])
                invariant
                    start <= e <= l@.len(),
                    token_len(l@.skip(start as int)) == e - start + token_len(
                        l@.skip(e as int),
                    ),
                decreases l@.len() - e,
            {
                proof {
                    assert(l@.skip(e as int)[0] == l@[e as int]);
                    assert(l@.skip(e as int).skip(1) =~= l@.skip(e as int + 1));
                }
                e = e + 1;
            }
            proof {
                if e < l@.len() {
                    assert(l@.skip(e as int)[0] == l@[e as int]);
                } else {
                    assert(l@.skip(e as int) =~= Seq::<u8>::empty());
                }
                assert(token_len(l@.skip(e as int)) == 0);
                assert(token_len(l@.skip(start as int)) == e - start);
            }
            let mut tok: Vec<u8> = Vec::new();
            let mut q: usize = start;
            while q < e
                invariant
                    start <= q <= e <= l@.len(),
                    tok@ =~= l@.subrange(start as int, q as int),
                decreases e - q,
            {
                tok.push(l[q]);
                q = q + 1;
            }
            proof {
                assert(tok@ =~= l@.skip(start as int).take(e - start as int));
            }
            let ghost prev = v@.map_values(|t: Vec<u8>| t@);
            v.push(tok);
            proof {
                assert(v@.map_values(|t: Vec<u8>| t@) =~= prev.push(
                    l@.skip(start as int).take(e - start as int),
                ));
                assert(l@.skip(start as int).skip(e - start as int) =~= l@.skip(e as int));
                assert(spec_tokens(l@.skip(start as int)) == seq![
                    l@.skip(start as int).take(token_len(l@.skip(start as int))),
                ] + spec_tokens(l@.skip(e as int)));
                assert(prev.push(l@.skip(start as int).take(e - start as int)) =~= prev + seq![
                    l@.skip(start as int).take(e - start as int),
                ]);
            }
            pos = e;
        }
    }
    proof {
        assert(l@.skip(l@.len() as int) =~= Seq::<u8>::empty());
    }
    v
}

/// Whether the byte separates fields.
fn is_ws_exec(b: u8) -> (r: bool)
    ensures
        r == is_ws(b),
{
    b == 32 || b == 9 || b == 13
}

/// Whether a row parses: at least four fields, integer second and third
/// fields, and contig and name fields in valid UTF-8.
pub open spec fn line_ok(l: Seq<u8>) -> bool {
    let toks = spec_tokens(l);
    &&& toks.len() >= 4
    &&& spec_parse_u64(toks[1]) is Some
    &&& spec_parse_u64(toks[2]) is Some
    &&& vstd::utf8::valid_utf8(toks[0])
    &&& vstd::utf8::valid_utf8(toks[3])
}

/// The message reported for a row that does not parse, with its 1-based
/// line number.
pub open spec fn line_err_text(l: Seq<u8>, lineno: int) -> Seq<char> {
    let toks = spec_tokens(l);
    if toks.len() < 4 {
        "Incorrect number of columns detected, expected >= 4 found "@ + dec_rep(
            toks.len() as int,
        ) + " (line = "@ + dec_rep(lineno) + ")"@
    } else if spec_parse_u64(toks[1]) is None && vstd::utf8::valid_utf8(toks[1]) {
        "Beg column is not an integer: is "@ + vstd::utf8::decode_utf8(toks[1]) + " (line = "@
            + dec_rep(lineno) + ")"@
    } else if spec_parse_u64(toks[1]) is Some && spec_parse_u64(toks[2]) is None
        && vstd::utf8::valid_utf8(toks[2]) {
        "End column is not an integer: is "@ + vstd::utf8::decode_utf8(toks[2]) + " (line = "@
            + dec_rep(lineno) + ")"@
    } else {
        "invalid UTF-8 in BED record (line = "@ + dec_rep(lineno) + ")"@
    }
}

/// Parses one row into a region.
#[verifier::rlimit(60)]
fn parse_line(line: &[u8], lineno: u64) -> (res: Result<Region, Error>)
    ensures
        res is Ok <==> line_ok(line@),
        res matches Ok(r) ==> {
            let toks = spec_tokens(line@);
            &&& r.contig@ == vstd::utf8::decode_utf8(toks[0])
            &&& Some(r.beg) == spec_parse_u64(toks[1])
            &&& Some(r.end) == spec_parse_u64(toks[2])
            &&& r.name@ == vstd::utf8::decode_utf8(toks[3])
        },
        res matches Err(e) ==> (e matches Error::BedInvalidRecord { msg } && msg@ == line_err_text(
            line@,
            lineno as int,
        )),
{
    proof {
        reveal_strlit("Incorrect number of columns detected, expected >= 4 found ");
        reveal_strlit("Beg column is not an integer: is ");
        reveal_strlit("End column is not an integer: is ");
        reveal_strlit("invalid UTF-8 in BED record (line = ");
        reveal_strlit(" (line = ");
        reveal_strlit(")");
    }
    let toks = tokenize(line);
    let ghost tokviews = spec_tokens(line@);
    if toks.len() < 4 {
        let mut msg = String::from_str(
            "Incorrect number of columns detected, expected >= 4 found ",
        );
        push_decimal(&mut msg, toks.len() as u128);
        msg.append(" (line = ");
        push_decimal(&mut msg, lineno as u128);
        msg.append(")");
        assert(msg@ =~= line_err_text(line@, lineno as int));
        return Err(Error::BedInvalidRecord { msg });
    }
    proof {
        assert(toks@[1]@ == tokviews[1]);
        assert(toks@[2]@ == tokviews[2]);
        assert(toks@[0]@ == tokviews[0]);
        assert(toks@[3]@ == tokviews[3]);
    }
    let beg = match parse_u64(toks[1].as_slice()) {
        Some(b) => b,
        None => {
            let mut msg = String::from_str("Beg column is not an integer: is ");
            match bytes_to_str(toks[1].as_slice()) {
                Some(s) => {
                    msg.append(s);
                    msg.append(" (line = ");
                    push_decimal(&mut msg, lineno as u128);
                    msg.append(")");
                    assert(msg@ =~= line_err_text(line@, lineno as int));
                    return Err(Error::BedInvalidRecord { msg });
                },
                None => {
                    let mut msg = String::from_str("invalid UTF-8 in BED record (line = ");
                    push_decimal(&mut msg, lineno as u128);
                    msg.append(")");
                    assert(msg@ =~= line_err_text(line@, lineno as int));
                    return Err(Error::BedInvalidRecord { msg });
                },
            }
        },
    };
    let end = match parse_u64(toks[2].as_slice()) {
        Some(b) => b,
        None => {
            let mut msg = String::from_str("End column is not an integer: is ");
            match bytes_to_str(toks[2].as_slice()) {
                Some(s) => {
                    msg.append(s);
                    msg.append(" (line = ");
                    push_decimal(&mut msg, lineno as u128);
                    msg.append(")");
                    assert(msg@ =~= line_err_text(line@, lineno as int));
                    return Err(Error::BedInvalidRecord { msg });
                },
                None => {
                    let mut msg = String::from_str("invalid UTF-8 in BED record (line = ");
                    push_decimal(&mut msg, lineno as u128);
                    msg.append(")");
                    assert(msg@ =~= line_err_text(line@, lineno as int));
                    return Err(Error::BedInvalidRecord { msg });
                },
            }
        },
    };
    let contig: String = match bytes_to_str(toks[0].as_slice()) {
        Some(s) => String::from_str(s),
        None => {
            let mut msg = String::from_str("invalid UTF-8 in BED record (line = ");
            push_decimal(&mut msg, lineno as u128);
            msg.append(")");
            assert(msg@ =~= line_err_text(line@, lineno as int));
            return Err(Error::BedInvalidRecord { msg });
        },
    };
    let name: String = match bytes_to_str(toks[3].as_slice()) {
        Some(s) => String::from_str(s),
        None => {
            let mut msg = String::from_str("invalid UTF-8 in BED record (line = ");
            push_decimal(&mut msg, lineno as u128);
            msg.append(")");
            assert(msg@ =~= line_err_text(line@, lineno as int));
            return Err(Error::BedInvalidRecord { msg });
        },
    };
    Ok(Region { contig, beg, end, name })
}

/// Loads regions from the text of a BED-style region list: one row per
/// region, whitespace-separated columns `contig`, `beg`, `end`, `name`
/// (further columns ignored), positions 0-based and half-open.
///
/// Fails on text that is not UTF-8 and on the first malformed row, naming
/// the row and what is wrong with it.
#[verifier::loop_isolation(false)]
pub fn load_from_bed(data: &[u8]) -> (res: Result<Vec<Region>, Error>)
    ensures
        res is Ok <==> (vstd::utf8::valid_utf8(data@) && (forall|i: int|
            0 <= i < spec_lines(data@).len() ==> line_ok(#[trigger] spec_lines(data@)[i]))),
        res matches Ok(v) ==> {
            let lines = spec_lines(data@);
            &&& v@.len() == lines.len()
            &&& forall|i: int|
                0 <= i < lines.len() ==> {
                    let toks = spec_tokens(#[trigger] lines[i]);
                    &&& v@[i].contig@ == vstd::utf8::decode_utf8(toks[0])
                    &&& Some(v@[i].beg) == spec_parse_u64(toks[1])
                    &&& Some(v@[i].end) == spec_parse_u64(toks[2])
                    &&& v@[i].name@ == vstd::utf8::decode_utf8(toks[3])
                }
        },
        res matches Err(e) ==> (if !vstd::utf8::valid_utf8(data@) {
            e matches Error::Unknown(m) && m@ == "stream did not contain valid UTF-8"@
        } else {
            exists|i: int|
                {
                    &&& 0 <= i < spec_lines(data@).len()
                    &&& !line_ok(#[trigger] spec_lines(data@)[i])
                    &&& (forall|j: int| 0 <= j < i ==> line_ok(#[trigger] spec_lines(data@)[j]))
                    &&& (e matches Error::BedInvalidRecord { msg } && msg@ == line_err_text(
                        spec_lines(data@)[i],
                        i + 1,
                    ))
                }
        }),
{
    proof {
        reveal_strlit("stream did not contain valid UTF-8");
    }
    if bytes_to_str(data).is_none() {
        return Err(Error::Unknown(String::from_str("stream did not contain valid UTF-8")));
    }
    let ghost all_lines = spec_lines(data@);
    let mut out: Vec<Region> = Vec::new();
    let mut pos: usize = 0;
    let ghost ln: int = 0;
    assert(data@.skip(0) =~= data@);
    while pos < data.len()
        invariant
            0 <= pos <= data@.len(),
            0 <= ln <= all_lines.len(),
            ln <= pos,
            all_lines =~= all_lines.take(ln) + spec_lines(data@.skip(pos as int)),
            forall|j: int| 0 <= j < ln ==> line_ok(#[trigger] all_lines[j]),
            out@.len() == ln,
            forall|i: int|
                0 <= i < ln ==> {
                    let toks = spec_tokens(#[trigger] all_lines[i]);
                    &&& out@[i].contig@ == vstd::utf8::decode_utf8(toks[0])
                    &&& Some(out@[i].beg) == spec_parse_u64(toks[1])
                    &&& Some(out@[i].end) == spec_parse_u64(toks[2])
                    &&& out@[i].name@ == vstd::utf8::decode_utf8(toks[3])
                },
        decreases data@.len() - pos,
    {
        // Find the end of the current row.
        let mut e: usize = pos;
        while e < data.len() && data[e] != 10
            invariant
                pos <= e <= data@.len(),
                forall|k: int| pos <= k < e ==> #[trigger] data@[k] != 10,
            decreases data@.len() - e,
        {
            e = e + 1;
        }
        proof {
            lemma_nl_pos(data@.skip(pos as int));
            let np = nl_pos(data@.skip(pos as int));
            assert forall|k: int| 0 <= k < e - pos implies #[trigger] data@.skip(pos as int)[k]
                != 10 by {
                assert(data@.skip(pos as int)[k] == data@[pos + k]);
            }
            if np < e - pos {
                assert(data@.skip(pos as int)[np] == data@[pos + np]);
                assert(false);
            }
            if np > e - pos {
                assert(e < data@.len());
                assert(data@.skip(pos as int)[e - pos as int] == data@[e as int]);
                assert(false);
            }
            assert(np == e - pos);
        }
        let line = vstd::slice::slice_subrange(data, pos, e);
        proof {
            assert(line@ =~= data@.skip(pos as int).take(e - pos as int));
            let rest = data@.skip(pos as int);
            if e == data@.len() && nl_pos(rest) == rest.len() {
                assert(line@ =~= rest);
                assert(spec_lines(rest) == seq![rest]);
            }
            assert(all_lines[ln] == line@);
        }
        let region = match parse_line(line, (out.len() + 1) as u64) {
            Ok(r) => r,
            Err(err) => {
                proof {
                    assert(!line_ok(all_lines[ln]));
                }
                return Err(err);
            },
        };
        out.push(region);
        proof {
            ln = ln + 1;
            if e < data@.len() {
                assert(data@.skip(pos as int).skip(e - pos as int + 1) =~= data@.skip(
                    e as int + 1,
                ));
                assert(all_lines =~= all_lines.take(ln) + spec_lines(data@.skip(e as int + 1)));
            } else {
                assert(data@.skip(data@.len() as int) =~= Seq::<u8>::empty());
                assert(all_lines =~= all_lines.take(ln) + spec_lines(
                    data@.skip(data@.len() as int),
                ));
            }
        }
        pos = if e < data.len() {
            e + 1
        } else {
            data.len()
        };
    }
    proof {
        assert(data@.skip(data@.len() as int) =~= Seq::<u8>::empty());
        assert(all_lines =~= all_lines.take(ln));
        assert(ln == all_lines.len());
    }
    Ok(out)
}

} // verus!
