use vstd::prelude::*;

use crate::log::{last_upto, sorted, LogLine};
use crate::registry::Registry;

verus! {

/// Latest first capture time over all buffers (every buffer non-empty);
/// the earliest instant at which each source has been observed.
pub open spec fn window_start(bufs: Seq<Seq<LogLine>>) -> int
    decreases bufs.len(),
{
    if bufs.len() == 0 {
        i64::MIN as int
    } else {
        let w = window_start(bufs.drop_last());
        let f = bufs.last()[0].timestamp as int;
        if f > w {
            f
        } else {
            w
        }
    }
}

/// Earliest last capture time over all buffers (every buffer non-empty);
/// past it some source has nothing more to report.
pub open spec fn window_end(bufs: Seq<Seq<LogLine>>) -> int
    decreases bufs.len(),
{
    if bufs.len() == 0 {
        i64::MAX as int
    } else {
        let w = window_end(bufs.drop_last());
        let l = bufs.last().last().timestamp as int;
        if l < w {
            l
        } else {
            w
        }
    }
}

/// Some buffer holds no line.
pub open spec fn has_empty(bufs: Seq<Seq<LogLine>>) -> bool {
    exists|i: int| 0 <= i < bufs.len() && bufs[i].len() == 0
}

/// Number of steps of `p` from `ws` that stay at or before `we`.
pub open spec fn steps(ws: int, we: int, p: int) -> int {
    if ws <= we {
        (we - ws) / p + 1
    } else {
        0
    }
}

/// Number of rows of the report over `bufs`: none without sources.
pub open spec fn row_count(bufs: Seq<Seq<LogLine>>, p: int) -> int {
    if bufs.len() == 0 {
        0
    } else {
        steps(window_start(bufs), window_end(bufs), p)
    }
}

/// Virtual time of row `k`.
pub open spec fn row_time(ws: int, p: int, k: int) -> int {
    ws + k * p
}

/// Cell of source `s` in row `k`: its latest line captured at or before the
/// row's time.
pub open spec fn cell(bufs: Seq<Seq<LogLine>>, p: int, k: int, s: int) -> LogLine {
    bufs[s][last_upto(bufs[s], row_time(window_start(bufs), p, k))]
}

/// What is left of buffer `b` once the rows before `k` have been filled.
pub open spec fn remaining(b: Seq<LogLine>, ws: int, p: int, k: int) -> Seq<LogLine> {
    if k <= 0 {
        b
    } else {
        b.skip(last_upto(b, row_time(ws, p, k - 1)) + 1)
    }
}

/// `rows` is the time-aligned grid of `bufs` at step `p`.
pub open spec fn aligned(bufs: Seq<Seq<LogLine>>, p: int, rows: Seq<Vec<LogLine>>) -> bool {
    &&& rows.len() == row_count(bufs, p)
    &&& forall|k: int| 0 <= k < rows.len() ==> (#[trigger] rows[k])@.len() == bufs.len()
    &&& forall|k: int, s: int|
        0 <= k < rows.len() && 0 <= s < bufs.len() ==> #[trigger] rows[k]@[s] == cell(bufs, p, k, s)
}

/// The window lies between each buffer's first and last capture time.
pub proof fn lemma_window_bounds(bufs: Seq<Seq<LogLine>>)
    requires
        !has_empty(bufs),
    ensures
        forall|s: int| 0 <= s < bufs.len() ==> #[trigger] bufs[s][0].timestamp <= window_start(bufs),
        forall|s: int|
            0 <= s < bufs.len() ==> window_end(bufs) <= (#[trigger] bufs[s]).last().timestamp,
        i64::MIN <= window_start(bufs),
        window_end(bufs) <= i64::MAX,
    decreases bufs.len(),
{
    if bufs.len() > 0 {
        let d = bufs.drop_last();
        assert(!has_empty(d)) by {
            if has_empty(d) {
                let i = choose|i: int| 0 <= i < d.len() && d[i].len() == 0;
                assert(bufs[i] == d[i]);
            }
        }
        lemma_window_bounds(d);
        assert forall|s: int| 0 <= s < bufs.len() implies #[trigger] bufs[s][0].timestamp
            <= window_start(bufs) by {
            if s < d.len() {
                assert(bufs[s] == d[s]);
            }
        }
        assert forall|s: int| 0 <= s < bufs.len() implies window_end(bufs) <= (
        #[trigger] bufs[s]).last().timestamp by {
            if s < d.len() {
                assert(bufs[s] == d[s]);
            }
        }
    }
}

/// Computes the window over the registry's buffers, or the position of the
/// first empty buffer.
fn window(logs: &Registry) -> (r: Result<(i64, i64), usize>)
    requires
        logs.wf(),
    ensures
        match r {
            Ok((ws, we)) => {
                &&& !has_empty(logs.buffers())
                &&& ws == window_start(logs.buffers())
                &&& we == window_end(logs.buffers())
            },
            Err(i) => {
                &&& i < logs.buffers().len()
                &&& logs.buffers()[i as int].len() == 0
                &&& forall|j: int| 0 <= j < i ==> logs.buffers()[j].len() > 0
            },
        },
{
    let ghost bufs = logs.buffers();
    let n = logs.len();
    let mut ws: i64 = i64::MIN;
    let mut we: i64 = i64::MAX;
    let mut i: usize = 0;
    while i < n
        invariant
            logs.wf(),
            n == bufs.len(),
            bufs == logs.buffers(),
            i <= n,
            forall|j: int| 0 <= j < i ==> bufs[j].len() > 0,
            ws == window_start(bufs.take(i as int)),
            we == window_end(bufs.take(i as int)),
        decreases n - i,
    {
        let log = logs.log(i);
        let first = log.get_start_time();
        let last = log.get_end_time();
        match (first, last) {
            (Some(f), Some(l)) => {
                proof {
                    assert(bufs.take(i + 1).drop_last() =~= bufs.take(i as int));
                    assert(bufs.take(i + 1).last() == bufs[i as int]);
                }
                if f > ws {
                    ws = f;
                }
                if l < we {
                    we = l;
                }
            },
            _ => {
                return Err(i);
            },
        }
        i = i + 1;
    }
    proof {
        assert(bufs.take(n as int) =~= bufs);
    }
    Ok((ws, we))
}

/// Draining a sorted buffer up to an earlier time shifts `last_upto` by the
/// number of lines removed.
pub proof fn lemma_last_upto_skip(b: Seq<LogLine>, off: int, t: int)
    requires
        sorted(b),
        0 <= off <= b.len(),
        off > 0 ==> b[off - 1].timestamp <= t,
    ensures
        sorted(b.skip(off)),
        last_upto(b, t) >= off - 1,
        last_upto(b.skip(off), t) == last_upto(b, t) - off,
{
    let c = b.skip(off);
    crate::log::lemma_last_upto(b, t);
    let m = last_upto(b, t);
    if off > 0 && m < off - 1 {
        assert(b[off - 1].timestamp <= t);
    }
    assert forall|i: int, j: int| 0 <= i <= j < c.len() implies c[i].timestamp
        <= c[j].timestamp by {
        assert(c[i] == b[i + off] && c[j] == b[j + off]);
    }
    assert forall|i: int| 0 <= i <= m - off implies c[i].timestamp <= t by {
        assert(c[i] == b[i + off]);
    }
    assert forall|i: int| m - off < i < c.len() implies c[i].timestamp > t by {
        assert(c[i] == b[i + off]);
    }
    crate::log::lemma_last_upto_unique(c, t, m - off);
}

/// `last_upto` never moves back as time goes on.
pub proof fn lemma_last_upto_monotonic(b: Seq<LogLine>, t1: int, t2: int)
    requires
        t1 <= t2,
    ensures
        last_upto(b, t1) <= last_upto(b, t2),
{
    crate::log::lemma_last_upto(b, t1);
    crate::log::lemma_last_upto(b, t2);
    let m1 = last_upto(b, t1);
    if m1 > last_upto(b, t2) {
        assert(b[m1].timestamp <= t1);
    }
}

/// The steps from `ws` by `p` that stay at or before `we` are exactly those
/// before the first that passes it.
pub proof fn lemma_steps(ws: int, we: int, p: int, k: int)
    requires
        p > 0,
        k >= 1,
        ws + (k - 1) * p <= we,
        we < ws + k * p,
    ensures
        steps(ws, we, p) == k,
{
    let d = we - ws;
    assert(0 <= d);
    assert((k - 1) * p <= d < k * p) by (nonlinear_arith)
        requires
            ws + (k - 1) * p <= we,
            we < ws + k * p,
            d == we - ws,
    ;
    vstd::arithmetic::div_mod::lemma_fundamental_div_mod(d, p);
    let q = d / p;
    assert(0 <= d % p < p) by {
        vstd::arithmetic::div_mod::lemma_mod_bound(d, p);
    }
    let r = d % p;
    if q > k - 1 {
        assert(false) by (nonlinear_arith)
            requires
                q >= k,
                p > 0,
                d == p * q + r,
                0 <= r,
                d < k * p,
        ;
    } else if q < k - 1 {
        assert(false) by (nonlinear_arith)
            requires
                q <= k - 2,
                p > 0,
                d == p * q + r,
                r < p,
                (k - 1) * p <= d,
        ;
    }
}

/// Buffer `b` holds no line captured in the step `(t - p, t]`.
pub open spec fn quiet(b: Seq<LogLine>, t: int, p: int) -> bool {
    forall|i: int| 0 <= i < b.len() ==> !(t - p < #[trigger] b[i].timestamp <= t)
}

/// In a row after the first, a source that captured nothing during the
/// step leading to the row repeats the cell it had in the row before.
pub proof fn lemma_forward_fill(bufs: Seq<Seq<LogLine>>, p: int, k: int, s: int)
    requires
        p > 0,
        k >= 1,
        0 <= s < bufs.len(),
        quiet(bufs[s], row_time(window_start(bufs), p, k), p),
    ensures
        cell(bufs, p, k, s) == cell(bufs, p, k - 1, s),
{
    let b = bufs[s];
    let ws = window_start(bufs);
    let t = row_time(ws, p, k);
    let tp = row_time(ws, p, k - 1);
    assert(tp == t - p) by (nonlinear_arith)
        requires
            t == ws + k * p,
            tp == ws + (k - 1) * p,
    ;
    crate::log::lemma_last_upto(b, t);
    crate::log::lemma_last_upto(b, tp);
    lemma_last_upto_monotonic(b, tp, t);
    let m = last_upto(b, t);
    if m > last_upto(b, tp) {
        assert(b[m].timestamp <= t);
        assert(!(t - p < b[m].timestamp <= t));
    }
}

/// Of two lines of one source captured in the step leading to a row, the
/// earlier never fills that row: its cell is the later line or one after it.
pub proof fn lemma_superseding(bufs: Seq<Seq<LogLine>>, p: int, k: int, s: int, i: int, j: int)
    requires
        p > 0,
        k >= 0,
        0 <= s < bufs.len(),
        0 <= i < j < bufs[s].len(),
        row_time(window_start(bufs), p, k) - p < bufs[s][i].timestamp,
        bufs[s][j].timestamp <= row_time(window_start(bufs), p, k),
    ensures
        j <= last_upto(bufs[s], row_time(window_start(bufs), p, k)),
        cell(bufs, p, k, s) == bufs[s][last_upto(bufs[s], row_time(window_start(bufs), p, k))],
{
    crate::log::lemma_last_upto(bufs[s], row_time(window_start(bufs), p, k));
}

/// Why no report could be made.
#[derive(Debug, PartialEq, Eq)]
pub enum ReportError {
    /// The step between rows is not positive.
    InvalidPrecision,
    /// The named source has no captured line.
    NoDataForSource(String),
}

/// The time-aligned grid: one header per source, one row per step.
#[derive(Debug)]
pub struct Report {
    pub headers: Vec<String>,
    pub rows: Vec<Vec<LogLine>>,
}

/// What holds of the registry and the buffers it started from while rows
/// are being filled.
pub open spec fn filling(logs: &Registry, b0: Seq<Seq<LogLine>>, p: int) -> bool {
    &&& logs.wf()
    &&& logs.buffers().len() == b0.len()
    &&& b0.len() > 0
    &&& p > 0
    &&& forall|s: int| 0 <= s < b0.len() ==> sorted(#[trigger] b0[s])
    &&& forall|s: int| 0 <= s < b0.len() ==> (#[trigger] b0[s]).len() > 0
    &&& forall|s: int| 0 <= s < b0.len() ==> #[trigger] b0[s][0].timestamp <= window_start(b0)
}

/// Fills row `k`, at time `t`, draining every buffer up to `t`; a source
/// with no new line repeats its cell of the previous row.
fn fill_row(
    logs: &mut Registry,
    prev: &Vec<Vec<LogLine>>,
    t: i64,
    Ghost(b0): Ghost<Seq<Seq<LogLine>>>,
    Ghost(p): Ghost<int>,
    Ghost(k): Ghost<int>,
) -> (row: Vec<LogLine>)
    requires
        filling(old(logs), b0, p),
        k >= 0,
        t == row_time(window_start(b0), p, k),
        prev@.len() == k,
        forall|j: int| 0 <= j < k ==> (#[trigger] prev@[j])@.len() == b0.len(),
        forall|j: int, s: int|
            0 <= j < k && 0 <= s < b0.len() ==> #[trigger] prev@[j]@[s] == cell(b0, p, j, s),
        forall|s: int|
            0 <= s < b0.len() ==> #[trigger] old(logs).buffers()[s] == remaining(
                b0[s],
                window_start(b0),
                p,
                k,
            ),
    ensures
        filling(final(logs), b0, p),
        final(logs).ids() == old(logs).ids(),
        row@.len() == b0.len(),
        forall|s: int| 0 <= s < b0.len() ==> #[trigger] row@[s] == cell(b0, p, k, s),
        forall|s: int|
            0 <= s < b0.len() ==> #[trigger] final(logs).buffers()[s] == remaining(
                b0[s],
                window_start(b0),
                p,
                k + 1,
            ),
{
    let ghost ws = window_start(b0);
    let ghost ids0 = logs.ids();
    let n = logs.len();
    let mut row: Vec<LogLine> = Vec::new();
    let mut s: usize = 0;
    while s < n
        invariant
            filling(logs, b0, p),
            logs.ids() == ids0,
            n == b0.len(),
            s <= n,
            k >= 0,
            t == row_time(ws, p, k),
            ws == window_start(b0),
            prev@.len() == k,
            forall|j: int| 0 <= j < k ==> (#[trigger] prev@[j])@.len() == b0.len(),
            forall|j: int, s: int|
                0 <= j < k && 0 <= s < b0.len() ==> #[trigger] prev@[j]@[s] == cell(b0, p, j, s),
            row@.len() == s,
            forall|j: int| 0 <= j < s ==> #[trigger] row@[j] == cell(b0, p, k, j),
            forall|j: int|
                0 <= j < s ==> #[trigger] logs.buffers()[j] == remaining(b0[j], ws, p, k + 1),
            forall|j: int|
                s <= j < n ==> #[trigger] logs.buffers()[j] == remaining(b0[j], ws, p, k),
        decreases n - s,
    {
        let ghost before = logs.buffers();
        let ghost b = b0[s as int];
        let ghost off = if k == 0 {
            0
        } else {
            last_upto(b, row_time(ws, p, k - 1)) + 1
        };
        proof {
            crate::log::lemma_last_upto(b, t as int);
            if k > 0 {
                let tp = row_time(ws, p, k - 1);
                assert(tp <= t) by (nonlinear_arith)
                    requires
                        tp == ws + (k - 1) * p,
                        t == ws + k * p,
                        p > 0,
                ;
                assert(ws <= tp) by (nonlinear_arith)
                    requires
                        tp == ws + (k - 1) * p,
                        k >= 1,
                        p > 0,
                ;
                crate::log::lemma_last_upto(b, tp);
                assert(b[0].timestamp <= tp);
                assert(last_upto(b, tp) >= 0);
                assert(b[off - 1].timestamp <= t);
            }
            assert(before[s as int] == b.skip(off));
            lemma_last_upto_skip(b, off, t as int);
            assert(b.skip(off).skip(last_upto(b.skip(off), t as int) + 1) =~= b.skip(
                last_upto(b, t as int) + 1,
            ));
        }
        let c = logs.drain_source(s, t);
        match c {
            Some(l) => {
                proof {
                    assert(b.skip(off)[last_upto(b.skip(off), t as int)] == b[last_upto(
                        b,
                        t as int,
                    )]);
                }
                row.push(l);
            },
            None => {
                proof {
                    if k == 0 {
                        assert(b[0].timestamp <= t);
                        assert(false);
                    }
                    assert(last_upto(b, t as int) == last_upto(b, row_time(ws, p, k - 1)));
                    assert(prev@[k - 1]@[s as int] == cell(b0, p, k - 1, s as int));
                }
                let last = prev.len() - 1;
                row.push(prev[last][s].duplicate());
            },
        }
        s = s + 1;
    }
    row
}

/// `fields` separated by commas.
pub open spec fn join_commas(fields: Seq<Seq<char>>) -> Seq<char>
    decreases fields.len(),
{
    if fields.len() == 0 {
        Seq::empty()
    } else if fields.len() == 1 {
        fields[0]
    } else {
        join_commas(fields.drop_last()) + seq![','] + fields.last()
    }
}

/// Texts of the cells of one row.
pub open spec fn row_texts(row: Seq<LogLine>) -> Seq<Seq<char>> {
    row.map_values(|l: LogLine| l.line@)
}

/// The delimited rendering: a header line, then one line per row, each
/// ended by a newline.
pub open spec fn csv_text(headers: Seq<Seq<char>>, rows: Seq<Seq<LogLine>>) -> Seq<char>
    decreases rows.len(),
{
    if rows.len() == 0 {
        join_commas(headers) + seq!['\n']
    } else {
        csv_text(headers, rows.drop_last()) + join_commas(row_texts(rows.last())) + seq!['\n']
    }
}

/// Appends `fields` to `out`, separated by commas, then a newline.
fn push_joined(out: &mut String, fields: &Vec<String>)
    ensures
        final(out)@ == old(out)@ + join_commas(fields@.map_values(|f: String| f@)) + seq!['\n'],
{
    let ghost start = out@;
    let ghost fs = fields@.map_values(|f: String| f@);
    let mut i: usize = 0;
    while i < fields.len()
        invariant
            i <= fields@.len(),
            fs == fields@.map_values(|f: String| f@),
            out@ == start + join_commas(fs.take(i as int)),
        decreases fields@.len() - i,
    {
        proof {
            reveal_strlit(",");
            assert(fs.take(i + 1).drop_last() =~= fs.take(i as int));
        }
        if i > 0 {
            out.append(",");
        }
        out.append(fields[i].as_str());
        proof {
            if i == 0 {
                assert(out@ =~= start + join_commas(fs.take(1)));
            } else {
                assert(out@ =~= start + join_commas(fs.take(i + 1)));
            }
        }
        i = i + 1;
    }
    proof {
        reveal_strlit("\n");
        assert(fs.take(fields@.len() as int) =~= fs);
    }
    out.append("\n");
}

/// Appends the texts of `row` to `out`, separated by commas, then a newline.
fn push_cells(out: &mut String, row: &Vec<LogLine>)
    ensures
        final(out)@ == old(out)@ + join_commas(row_texts(row@)) + seq!['\n'],
{
    let ghost start = out@;
    let ghost fs = row_texts(row@);
    let mut i: usize = 0;
    while i < row.len()
        invariant
            i <= row@.len(),
            fs == row_texts(row@),
            out@ == start + join_commas(fs.take(i as int)),
        decreases row@.len() - i,
    {
        proof {
            reveal_strlit(",");
            assert(fs.take(i + 1).drop_last() =~= fs.take(i as int));
        }
        if i > 0 {
            out.append(",");
        }
        out.append(row[i].line.as_str());
        proof {
            if i == 0 {
                assert(out@ =~= start + join_commas(fs.take(1)));
            } else {
                assert(out@ =~= start + join_commas(fs.take(i + 1)));
            }
        }
        i = i + 1;
    }
    proof {
        reveal_strlit("\n");
        assert(fs.take(row@.len() as int) =~= fs);
    }
    out.append("\n");
}

impl Report {
    /// Aligns the registry's buffers on a virtual clock that starts at the
    /// window start and advances by `precision` milliseconds while it stays
    /// at or before the window end. Each cell is the latest line of its
    /// source captured at or before the row's time, carried forward where
    /// nothing new arrived. The buffers are drained of every line used.
    pub fn generate(logs: &mut Registry, precision: i64) -> (r: Result<Report, ReportError>)
        requires
            old(logs).wf(),
        ensures
            final(logs).wf(),
            final(logs).ids() == old(logs).ids(),
            precision <= 0 ==> r == Err::<Report, ReportError>(ReportError::InvalidPrecision)
                && final(logs).buffers() == old(logs).buffers(),
            precision > 0 && has_empty(old(logs).buffers()) ==> final(logs).buffers() == old(
                logs,
            ).buffers() && (r matches Err(ReportError::NoDataForSource(id)) && exists|i: int|
                0 <= i < old(logs).buffers().len() && old(logs).buffers()[i].len() == 0 && (forall|
                    j: int,
                | 0 <= j < i ==> old(logs).buffers()[j].len() > 0) && id@ == old(logs).ids()[i]),
            precision > 0 && !has_empty(old(logs).buffers()) ==> (r matches Ok(rep) && {
                &&& rep.headers@.len() == old(logs).ids().len()
                &&& forall|i: int|
                    0 <= i < rep.headers@.len() ==> #[trigger] rep.headers@[i]@ == old(
                        logs,
                    ).ids()[i]
                &&& aligned(old(logs).buffers(), precision as int, rep.rows@)
                &&& forall|k: int, s: int|
                    1 <= k < rep.rows@.len() && 0 <= s < old(logs).buffers().len() && quiet(
                        old(logs).buffers()[s],
                        row_time(window_start(old(logs).buffers()), precision as int, k),
                        precision as int,
                    ) ==> #[trigger] rep.rows@[k]@[s] == rep.rows@[k - 1]@[s]
                &&& forall|k: int, s: int, i: int, j: int|
                    #![trigger rep.rows@[k]@[s], old(logs).buffers()[s][i], old(logs).buffers()[s][j]]
                    0 <= k < rep.rows@.len() && 0 <= s < old(logs).buffers().len() && 0 <= i < j
                        < old(logs).buffers()[s].len() && row_time(
                        window_start(old(logs).buffers()),
                        precision as int,
                        k,
                    ) - precision < old(logs).buffers()[s][i].timestamp && old(
                        logs,
                    ).buffers()[s][j].timestamp <= row_time(
                        window_start(old(logs).buffers()),
                        precision as int,
                        k,
                    ) ==> exists|m: int|
                        j <= m < old(logs).buffers()[s].len() && rep.rows@[k]@[s] == old(
                            logs,
                        ).buffers()[s][m]
                &&& forall|s: int|
                    0 <= s < old(logs).buffers().len() ==> #[trigger] final(logs).buffers()[s]
                        == remaining(
                        old(logs).buffers()[s],
                        window_start(old(logs).buffers()),
                        precision as int,
                        row_count(old(logs).buffers(), precision as int),
                    )
            }),
    {
        if precision <= 0 {
            return Err(ReportError::InvalidPrecision);
        }
        let ghost b0 = logs.buffers();
        let ghost ids0 = logs.ids();
        let ghost p = precision as int;
        let (ws, we) = match window(logs) {
            Ok(w) => w,
            Err(i) => {
                return Err(ReportError::NoDataForSource(logs.id(i).clone()));
            },
        };
        let headers = logs.headers();
        let n = logs.len();
        let mut rows: Vec<Vec<LogLine>> = Vec::new();
        if n == 0 {
            return Ok(Report { headers, rows });
        }
        proof {
            lemma_window_bounds(b0);
            assert forall|s: int| 0 <= s < b0.len() implies (#[trigger] b0[s]).len() > 0 by {
                if b0[s].len() == 0 {
                    assert(has_empty(b0));
                }
            }
        }
        let mut t: i64 = ws;
        let ghost mut k: int = 0;
        loop
            invariant_except_break
                t == row_time(ws as int, p, k),
            invariant
                filling(logs, b0, p),
                logs.ids() == ids0,
                n == b0.len(),
                p == precision as int,
                ws == window_start(b0),
                we == window_end(b0),
                k >= 0,
                k > 0 ==> row_time(ws as int, p, k - 1) <= we,
                rows@.len() == k,
                forall|j: int| 0 <= j < k ==> (#[trigger] rows@[j])@.len() == b0.len(),
                forall|j: int, s: int|
                    0 <= j < k && 0 <= s < b0.len() ==> #[trigger] rows@[j]@[s] == cell(
                        b0,
                        p,
                        j,
                        s,
                    ),
                forall|s: int|
                    0 <= s < b0.len() ==> #[trigger] logs.buffers()[s] == remaining(
                        b0[s],
                        ws as int,
                        p,
                        k,
                    ),
            ensures
                k == row_count(b0, p),
                rows@.len() == k,
                forall|j: int| 0 <= j < k ==> (#[trigger] rows@[j])@.len() == b0.len(),
                forall|j: int, s: int|
                    0 <= j < k && 0 <= s < b0.len() ==> #[trigger] rows@[j]@[s] == cell(
                        b0,
                        p,
                        j,
                        s,
                    ),
                forall|s: int|
                    0 <= s < b0.len() ==> #[trigger] logs.buffers()[s] == remaining(
                        b0[s],
                        ws as int,
                        p,
                        k,
                    ),
            decreases i64::MAX - t,
        {
            if t > we {
                proof {
                    if k > 0 {
                        lemma_steps(ws as int, we as int, p, k);
                    }
                }
                break;
            }
            let row = fill_row(logs, &rows, t, Ghost(b0), Ghost(p), Ghost(k));
            rows.push(row);
            proof {
                k = k + 1;
            }
            match t.checked_add(precision) {
                Some(next) => {
                    proof {
                        assert(row_time(ws as int, p, k) == t + p) by (nonlinear_arith)
                            requires
                                t == ws + (k - 1) * p,
                        ;
                    }
                    t = next;
                },
                None => {
                    proof {
                        assert(row_time(ws as int, p, k) == t + p) by (nonlinear_arith)
                            requires
                                t == ws + (k - 1) * p,
                        ;
                        lemma_steps(ws as int, we as int, p, k);
                    }
                    break;
                },
            }
        }
        proof {
            assert forall|k: int, s: int|
                1 <= k < rows@.len() && 0 <= s < b0.len() && quiet(
                    b0[s],
                    row_time(ws as int, p, k),
                    p,
                ) implies #[trigger] rows@[k]@[s] == rows@[k - 1]@[s] by {
                lemma_forward_fill(b0, p, k, s);
            }
            assert forall|k: int, s: int, i: int, j: int|
                #![trigger rows@[k]@[s], b0[s][i], b0[s][j]]
                0 <= k < rows@.len() && 0 <= s < b0.len() && 0 <= i < j < b0[s].len()
                    && row_time(ws as int, p, k) - p < b0[s][i].timestamp
                    && b0[s][j].timestamp <= row_time(
                    ws as int,
                    p,
                    k,
                ) implies exists|m: int|
                j <= m < b0[s].len() && rows@[k]@[s] == b0[s][m] by {
                lemma_superseding(b0, p, k, s, i, j);
                let m = last_upto(b0[s], row_time(ws as int, p, k));
                crate::log::lemma_last_upto(b0[s], row_time(ws as int, p, k));
                assert(j <= m < b0[s].len());
                assert(rows@[k]@[s] == cell(b0, p, k, s));
                assert(rows@[k]@[s] == b0[s][m]);
            }
        }
        Ok(Report { headers, rows })
    }

    /// Header texts, in order.
    pub open spec fn headers_text(&self) -> Seq<Seq<char>> {
        self.headers@.map_values(|h: String| h@)
    }

    /// Rows as sequences of lines.
    pub open spec fn grid(&self) -> Seq<Seq<LogLine>> {
        self.rows@.map_values(|r: Vec<LogLine>| r@)
    }

    /// Renders the report as comma-separated text: the headers on the first
    /// line, then the cell texts of each row on a line of their own.
    pub fn generate_csv_content(&self) -> (r: String)
        ensures
            r@ == csv_text(self.headers_text(), self.grid()),
    {
        let mut out = String::new();
        push_joined(&mut out, &self.headers);
        let mut k: usize = 0;
        while k < self.rows.len()
            invariant
                k <= self.rows@.len(),
                out@ == csv_text(self.headers_text(), self.grid().take(k as int)),
            decreases self.rows@.len() - k,
        {
            push_cells(&mut out, &self.rows[k]);
            proof {
                let g = self.grid().take(k + 1);
                assert(g.drop_last() =~= self.grid().take(k as int));
                assert(g.last() == self.rows@[k as int]@);
            }
            k = k + 1;
        }
        proof {
            assert(self.grid().take(self.rows@.len() as int) =~= self.grid());
        }
        out
    }
}

} // verus!
