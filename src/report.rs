//! The lines of a page report: at which base indices a line is written and
//! which record of each channel it shows.
use vstd::prelude::*;
use vstd::arithmetic::div_mod::{lemma_fundamental_div_mod, lemma_mod_bound};
use crate::header::DataPacketHeader;

verus! {

/// One line of a page report.
#[derive(Clone, Copy, Debug, PartialEq, Eq, Structural)]
pub struct ReportRow {
    /// Base index of the line.
    pub index: u128,
    /// Time of the line: the page's start plus the base interval times the
    /// index, modulo 2^64.
    pub timestamp: u64,
    /// Record of the first channel that the line shows; `None` where that
    /// channel has no record.
    pub p: Option<usize>,
    /// Record of the second channel that the line shows.
    pub t: Option<usize>,
}

/// The first base index at which a channel with ratio `r` and `n` records
/// runs out: the report stops there.
pub open spec fn run_out_index(r: int, n: int) -> int {
    if n == 0 {
        r
    } else {
        r * n
    }
}

/// The base index at which the report stops: where the first channel to run
/// out of records does.
pub open spec fn end_index(h: DataPacketHeader, np: int, nt: int) -> int {
    let a = run_out_index(h.interleave_ratio[0] as int, np);
    let b = run_out_index(h.interleave_ratio[1] as int, nt);
    if a <= b {
        a
    } else {
        b
    }
}

/// Some channel samples at base index `i`.
pub open spec fn is_sample_index(h: DataPacketHeader, i: int) -> bool {
    i % (h.interleave_ratio[0] as int) == 0 || i % (h.interleave_ratio[1] as int) == 0
}

/// The line at base index `i`: each channel shows its latest record at or
/// before `i`.
pub open spec fn row_at(h: DataPacketHeader, np: int, nt: int, i: int) -> ReportRow {
    ReportRow {
        index: i as u128,
        timestamp: ((h.timestamp + i * h.base_interval_ms) % 0x1_0000_0000_0000_0000int) as u64,
        p: if np == 0 {
            None
        } else if i == 0 {
            Some(0)
        } else {
            Some((i / (h.interleave_ratio[0] as int)) as usize)
        },
        t: if nt == 0 {
            None
        } else if i == 0 {
            Some(0)
        } else {
            Some((i / (h.interleave_ratio[1] as int)) as usize)
        },
    }
}

/// `rows` is the report of a page with header `h` and `np` and `nt` records
/// in its channels: a line at index 0, and, where both ratios are nonzero, a
/// line at every index below the stopping index at which some channel
/// samples, in increasing order.
pub open spec fn report_rows_spec(h: DataPacketHeader, np: int, nt: int, rows: Seq<ReportRow>) -> bool {
    &&& rows.len() >= 1
    &&& rows[0] == row_at(h, np, nt, 0)
    &&& if h.interleave_ratio[0] == 0 || h.interleave_ratio[1] == 0 {
        rows.len() == 1
    } else {
        &&& forall|j: int|
            #![trigger rows[j]]
            1 <= j < rows.len() ==> 1 <= rows[j].index < end_index(h, np, nt) && is_sample_index(
                h,
                rows[j].index as int,
            ) && rows[j] == row_at(h, np, nt, rows[j].index as int)
        &&& forall|j: int|
            0 <= j < rows.len() - 1 ==> #[trigger] rows[j].index < rows[j + 1].index
        &&& forall|i: int|
            1 <= i < end_index(h, np, nt) && #[trigger] is_sample_index(h, i) ==> exists|j: int|
                0 <= j < rows.len() && rows[j].index == i
    }
}

/// The smallest multiple of `r` above `x`.
spec fn next_multiple(x: int, r: int) -> int {
    (x / r + 1) * r
}

proof fn lemma_next_multiple_props(x: int, r: int)
    requires
        x >= 0,
        r > 0,
    ensures
        next_multiple(x, r) > x,
        next_multiple(x, r) % r == 0,
        next_multiple(x, r) <= x + r,
{
    lemma_fundamental_div_mod(x, r);
    lemma_mod_bound(x, r);
    let q = x / r;
    assert((q + 1) * r == r * q + r) by (nonlinear_arith);
    vstd::arithmetic::div_mod::lemma_mod_multiples_basic(q + 1, r);
}

proof fn lemma_next_multiple_min(x: int, r: int, i: int)
    requires
        x >= 0,
        r > 0,
        x < i,
        i % r == 0,
    ensures
        next_multiple(x, r) <= i,
{
    lemma_fundamental_div_mod(x, r);
    lemma_fundamental_div_mod(i, r);
    lemma_mod_bound(x, r);
    let q = x / r;
    let qi = i / r;
    assert(i == r * qi);
    assert(q + 1 <= qi) by (nonlinear_arith)
        requires
            x == r * q + x % r,
            i == r * qi,
            x < i,
            0 <= x % r,
            r > 0,
    ;
    assert((q + 1) * r <= r * qi) by (nonlinear_arith)
        requires
            q + 1 <= qi,
            r > 0,
    ;
}

proof fn lemma_advance(x: int, r: int, i: int)
    requires
        x >= 0,
        r > 0,
        x < i <= next_multiple(x, r),
    ensures
        next_multiple(i, r) == if next_multiple(x, r) == i {
            i + r
        } else {
            next_multiple(x, r)
        },
{
    let n = next_multiple(x, r);
    lemma_next_multiple_props(x, r);
    lemma_next_multiple_props(i, r);
    if n == i {
        lemma_fundamental_div_mod(i, r);
        assert(next_multiple(i, r) == i + r) by (nonlinear_arith)
            requires
                i == r * (i / r) + i % r,
                i % r == 0,
                next_multiple(i, r) == (i / r + 1) * r,
        ;
    } else {
        lemma_next_multiple_min(i, r, n);
        lemma_next_multiple_min(x, r, next_multiple(i, r));
    }
}

/// Every sample index in `1..=last` has a line.
spec fn complete_up_to(h: DataPacketHeader, rows: Seq<ReportRow>, last: int) -> bool {
    forall|i: int|
        1 <= i <= last && #[trigger] is_sample_index(h, i) ==> exists|j: int|
            0 <= j < rows.len() && rows[j].index == i
}

proof fn lemma_complete_to_end(h: DataPacketHeader, rows: Seq<ReportRow>, last: int, end: int)
    requires
        h.interleave_ratio[0] > 0,
        h.interleave_ratio[1] > 0,
        last >= 0,
        complete_up_to(h, rows, last),
        next_multiple(last, h.interleave_ratio[0] as int) >= end,
        next_multiple(last, h.interleave_ratio[1] as int) >= end,
    ensures
        forall|i: int|
            1 <= i < end && #[trigger] is_sample_index(h, i) ==> exists|j: int|
                0 <= j < rows.len() && rows[j].index == i,
{
    let r0 = h.interleave_ratio[0] as int;
    let r1 = h.interleave_ratio[1] as int;
    assert forall|i: int| 1 <= i < end && #[trigger] is_sample_index(h, i) implies exists|j: int|
        0 <= j < rows.len() && rows[j].index == i by {
        if i > last {
            if i % r0 == 0 {
                lemma_next_multiple_min(last, r0, i);
            } else {
                lemma_next_multiple_min(last, r1, i);
            }
        }
    }
}

proof fn lemma_complete_step(
    h: DataPacketHeader,
    old_rows: Seq<ReportRow>,
    rows: Seq<ReportRow>,
    last: int,
    i: int,
)
    requires
        h.interleave_ratio[0] > 0,
        h.interleave_ratio[1] > 0,
        last >= 0,
        last < i,
        complete_up_to(h, old_rows, last),
        rows.len() == old_rows.len() + 1,
        forall|j: int| 0 <= j < old_rows.len() ==> rows[j] == old_rows[j],
        rows[old_rows.len() as int].index == i,
        i == next_multiple(last, h.interleave_ratio[0] as int) || i == next_multiple(
            last,
            h.interleave_ratio[1] as int,
        ),
        i <= next_multiple(last, h.interleave_ratio[0] as int),
        i <= next_multiple(last, h.interleave_ratio[1] as int),
    ensures
        complete_up_to(h, rows, i),
{
    let r0 = h.interleave_ratio[0] as int;
    let r1 = h.interleave_ratio[1] as int;
    assert forall|i2: int| 1 <= i2 <= i && #[trigger] is_sample_index(h, i2) implies exists|j: int|
        0 <= j < rows.len() && rows[j].index == i2 by {
        if i2 <= last {
            let j = choose|j: int| 0 <= j < old_rows.len() && old_rows[j].index == i2;
            assert(rows[j] == old_rows[j]);
        } else if i2 < i {
            if i2 % r0 == 0 {
                lemma_next_multiple_min(last, r0, i2);
            } else {
                lemma_next_multiple_min(last, r1, i2);
            }
        } else {
            assert(rows[old_rows.len() as int].index == i2);
        }
    }
}

fn make_row(h: &DataPacketHeader, np: usize, nt: usize, i: u128) -> (r: ReportRow)
    requires
        i == 0 || (h.interleave_ratio[0] > 0 && h.interleave_ratio[1] > 0 && i < end_index(
            *h,
            np as int,
            nt as int,
        )),
    ensures
        r == row_at(*h, np as int, nt as int, i as int),
{
    let mut p: Option<usize> = None;
    let mut t: Option<usize> = None;
    if i == 0 {
        if np > 0 {
            p = Some(0);
        }
        if nt > 0 {
            t = Some(0);
        }
        return ReportRow { index: 0, timestamp: h.timestamp, p, t };
    }
    let r0: u128 = h.interleave_ratio[0] as u128;
    let r1: u128 = h.interleave_ratio[1] as u128;
    let base: u128 = h.base_interval_ms as u128;
    proof {
        let (ii, r0i, r1i) = (i as int, r0 as int, r1 as int);
        let (npi, nti) = (np as int, nt as int);
        assert(npi <= 0xffff_ffff_ffff_ffff && nti <= 0xffff_ffff_ffff_ffff);
        if npi > 0 {
            assert(ii <= r0i * npi);
            assert(ii / r0i < npi) by (nonlinear_arith)
                requires
                    ii < r0i * npi,
                    r0i > 0,
                    ii >= 0,
            {
                vstd::arithmetic::div_mod::lemma_fundamental_div_mod(ii, r0i);
                vstd::arithmetic::div_mod::lemma_mod_bound(ii, r0i);
            }
        }
        if nti > 0 {
            assert(ii / r1i < nti) by (nonlinear_arith)
                requires
                    ii < r1i * nti,
                    r1i > 0,
                    ii >= 0,
            {
                vstd::arithmetic::div_mod::lemma_fundamental_div_mod(ii, r1i);
                vstd::arithmetic::div_mod::lemma_mod_bound(ii, r1i);
            }
        }
        if npi == 0 {
            assert(ii <= r0i);
        } else {
            assert(ii < r0i * npi);
            assert(r0i * npi <= 0xffff_ffff * npi) by (nonlinear_arith)
                requires
                    0 <= r0i <= 0xffff_ffff,
                    npi >= 0,
            ;
            assert(0xffff_ffff * npi <= 0xffff_ffff * 0xffff_ffff_ffff_ffff) by (nonlinear_arith)
                requires
                    0 <= npi <= 0xffff_ffff_ffff_ffff,
            ;
        }
        assert(ii * (base as int) <= 0xffff_ffff * 0xffff_ffff_ffff_ffff * 0xffff_ffff)
            by (nonlinear_arith)
            requires
                ii <= 0xffff_ffff * 0xffff_ffff_ffff_ffff,
                base <= 0xffff_ffff,
                ii >= 0,
        ;
    }
    if np > 0 {
        p = Some((i / r0) as usize);
    }
    if nt > 0 {
        t = Some((i / r1) as usize);
    }
    let ts: u64 = ((h.timestamp as u128 + i * base) % 0x1_0000_0000_0000_0000u128) as u64;
    ReportRow { index: i, timestamp: ts, p, t }
}

/// The lines of the report of a page with header `h` whose channels hold
/// `np` and `nt` records.
pub fn report_rows(h: &DataPacketHeader, np: usize, nt: usize) -> (r: Vec<ReportRow>)
    ensures
        report_rows_spec(*h, np as int, nt as int, r@),
{
    let mut rows: Vec<ReportRow> = Vec::new();
    rows.push(make_row(h, np, nt, 0));
    if h.interleave_ratio[0] == 0 || h.interleave_ratio[1] == 0 {
        return rows;
    }
    let r0: u128 = h.interleave_ratio[0] as u128;
    let r1: u128 = h.interleave_ratio[1] as u128;
    proof {
        assert(r0 * (np as int) <= 0xffff_ffff * 0xffff_ffff_ffff_ffff) by (nonlinear_arith)
            requires
                r0 <= 0xffff_ffff,
                np <= 0xffff_ffff_ffff_ffff,
        ;
        assert(r1 * (nt as int) <= 0xffff_ffff * 0xffff_ffff_ffff_ffff) by (nonlinear_arith)
            requires
                r1 <= 0xffff_ffff,
                nt <= 0xffff_ffff_ffff_ffff,
        ;
    }
    let e0: u128 = if np == 0 {
        r0
    } else {
        r0 * np as u128
    };
    let e1: u128 = if nt == 0 {
        r1
    } else {
        r1 * nt as u128
    };
    let end: u128 = if e0 <= e1 {
        e0
    } else {
        e1
    };
    proof {
        assert(end >= 1) by (nonlinear_arith)
            requires
                end == e0 || end == e1,
                e0 == r0 || e0 == r0 * (np as int) && np >= 1,
                e1 == r1 || e1 == r1 * (nt as int) && nt >= 1,
                r0 >= 1,
                r1 >= 1,
        ;
        assert(0int / (r0 as int) == 0);
        assert(0int / (r1 as int) == 0);
        assert(next_multiple(0, r0 as int) == r0 as int);
        assert(next_multiple(0, r1 as int) == r1 as int);
    }
    let mut n0: u128 = r0;
    let mut n1: u128 = r1;
    let ghost mut last: int = 0;
    loop
        invariant
            r0 == h.interleave_ratio[0] as int,
            r1 == h.interleave_ratio[1] as int,
            r0 > 0,
            r1 > 0,
            end == end_index(*h, np as int, nt as int),
            end <= 0xffff_ffff * 0xffff_ffff_ffff_ffff,
            rows@.len() >= 1,
            rows@[0] == row_at(*h, np as int, nt as int, 0),
            0 <= last < end,
            last == rows@.last().index,
            n0 == next_multiple(last, r0 as int),
            n1 == next_multiple(last, r1 as int),
            forall|j: int|
                #![trigger rows@[j]]
                1 <= j < rows@.len() ==> 1 <= rows@[j].index < end && is_sample_index(
                    *h,
                    rows@[j].index as int,
                ) && rows@[j] == row_at(*h, np as int, nt as int, rows@[j].index as int),
            forall|j: int| 0 <= j < rows@.len() - 1 ==> #[trigger] rows@[j].index < rows@[j + 1].index,
            complete_up_to(*h, rows@, last),
        ensures
            report_rows_spec(*h, np as int, nt as int, rows@),
        decreases end - last,
    {
        let i: u128 = if n0 <= n1 {
            n0
        } else {
            n1
        };
        proof {
            lemma_next_multiple_props(last, r0 as int);
            lemma_next_multiple_props(last, r1 as int);
        }
        if i >= end {
            proof {
                lemma_complete_to_end(*h, rows@, last, end as int);
            }
            break;
        }
        let row = make_row(h, np, nt, i);
        let ghost old_rows = rows@;
        rows.push(row);
        proof {
            lemma_complete_step(*h, old_rows, rows@, last, i as int);
            lemma_advance(last, r0 as int, i as int);
            lemma_advance(last, r1 as int, i as int);
        }
        if n0 == i {
            n0 = n0 + r0;
        }
        if n1 == i {
            n1 = n1 + r1;
        }
        proof {
            last = i as int;
        }
    }
    rows
}

} // verus!
