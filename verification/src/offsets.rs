//! Consumer lag from committed offsets and watermarks.
//!
//! The offset-lag view takes the committed offsets of one group from the
//! cache, asks the Kafka client for the low and high watermark of every
//! `(topic, partition)` involved, and reports per partition the watermarks,
//! the committed offset and a display string: the lag, `Empty topic` when the
//! partition holds no records, or `Out of retention` when the offset lies
//! below the low watermark.  The watermark queries are I/O and run outside
//! this crate on a bounded worker pool; `watermark_tasks` says which queries
//! to run, and `lag_rows` turns their results into the rows of the view.

use vstd::prelude::*;
use vstd::utf8::{
    decode_utf8, encode_utf8, valid_utf8, is_ascii_chars, is_ascii_chars_encode_utf8,
    encode_utf8_valid_utf8, encode_utf8_decode_utf8,
};
use crate::metadata::{ClusterId, TopicName};
use crate::types::str_eq;

verus! {

// ---------------------------------------------------------------------------
// decimal strings
// ---------------------------------------------------------------------------

/// The ASCII digits of `n`, most significant first.
pub open spec fn dec_bytes_nat(n: nat) -> Seq<u8>
    decreases n,
{
    if n < 10 {
        seq![(48 + n) as u8]
    } else {
        dec_bytes_nat(n / 10).push((48 + n % 10) as u8)
    }
}

/// The ASCII bytes of `n` in decimal, with a leading minus when negative.
pub open spec fn dec_bytes_int(n: int) -> Seq<u8> {
    if n < 0 {
        seq![45u8] + dec_bytes_nat((-n) as nat)
    } else {
        dec_bytes_nat(n as nat)
    }
}

/// The decimal representation of `n`, as characters.
pub open spec fn dec_chars_int(n: int) -> Seq<char> {
    Seq::new(dec_bytes_int(n).len(), |i: int| dec_bytes_int(n)[i] as char)
}

proof fn lemma_dec_bytes_nat_ascii(n: nat)
    ensures
        forall|i: int|
            0 <= i < dec_bytes_nat(n).len() ==> 48 <= #[trigger] dec_bytes_nat(n)[i] <= 57,
    decreases n,
{
    if n < 10 {
        assert(dec_bytes_nat(n)[0] == (48 + n) as u8);
    } else {
        lemma_dec_bytes_nat_ascii(n / 10);
        let short = dec_bytes_nat(n / 10);
        assert forall|i: int| 0 <= i < dec_bytes_nat(n).len() implies 48 <= #[trigger] dec_bytes_nat(
            n,
        )[i] <= 57 by {
            if i < short.len() {
                assert(dec_bytes_nat(n)[i] == short[i]);
            } else {
                assert(dec_bytes_nat(n)[i] == (48 + n % 10) as u8);
            }
        }
    }
}

/// A sequence of bytes below 128 is valid UTF-8 and decodes byte by byte.
proof fn lemma_ascii_decode(b: Seq<u8>)
    requires
        forall|i: int| 0 <= i < b.len() ==> #[trigger] b[i] < 128,
    ensures
        valid_utf8(b),
        decode_utf8(b) == Seq::new(b.len(), |i: int| b[i] as char),
{
    let cs = Seq::new(b.len(), |i: int| b[i] as char);
    assert(is_ascii_chars(cs)) by {
        assert forall|i: int| 0 <= i < cs.len() implies '\0' <= #[trigger] cs[i] <= '\u{7f}' by {
            assert(b[i] < 128);
        }
    }
    is_ascii_chars_encode_utf8(cs);
    assert(encode_utf8(cs) =~= b) by {
        assert forall|i: int| 0 <= i < cs.len() implies #[trigger] encode_utf8(cs)[i] == b[i] by {
            assert(cs[i] as u8 == encode_utf8(cs)[i]);
            assert(cs[i] == b[i] as char);
        }
    }
    encode_utf8_valid_utf8(cs);
    encode_utf8_decode_utf8(cs);
}

/// Appends the decimal digits of `n` to `out`.
fn push_dec_u64(out: &mut Vec<u8>, n: u64)
    ensures
        final(out)@ == old(out)@ + dec_bytes_nat(n as nat),
    decreases n,
{
    if n >= 10 {
        push_dec_u64(out, n / 10);
    }
    out.push(48 + (n % 10) as u8);
    proof {
        assert(final(out)@ =~= old(out)@ + dec_bytes_nat(n as nat));
    }
}

/// Renders `n` in decimal.
pub fn i64_to_dec_string(n: i64) -> (r: String)
    ensures
        r@ == dec_chars_int(n as int),
{
    let mut out: Vec<u8> = Vec::new();
    if n < 0 {
        out.push(45u8);
        let m: u64 = ((-(n + 1)) as u64) + 1;
        proof {
            assert(m as int == -(n as int));
        }
        push_dec_u64(&mut out, m);
    } else {
        push_dec_u64(&mut out, n as u64);
    }
    proof {
        assert(out@ =~= dec_bytes_int(n as int));
        lemma_dec_bytes_nat_ascii(if n < 0 {
            (-(n as int)) as nat
        } else {
            n as nat
        });
        assert(forall|i: int| 0 <= i < out@.len() ==> #[trigger] out@[i] < 128);
        lemma_ascii_decode(out@);
    }
    match crate::wire::bytes_to_string(out) {
        Some(s) => s,
        None => {
            proof {
                assert(false);
            }
            String::new()
        },
    }
}

// ---------------------------------------------------------------------------
// watermark tasks
// ---------------------------------------------------------------------------

/// One committed-offsets entry of a group, as the offsets cache stores it:
/// the key names the cluster, the group and the topic, and the value holds
/// one committed offset per partition.
pub type OffsetsEntry = ((ClusterId, String, TopicName), Vec<i64>);

/// The queries one entry asks for: one per partition of its topic.
pub open spec fn entry_tasks(e: ((Seq<char>, Seq<char>, Seq<char>), Seq<i64>)) -> Seq<
    (Seq<char>, i32),
>
    recommends
        e.1.len() <= i32::MAX,
{
    Seq::new(e.1.len(), |j: int| (e.0.2, j as i32))
}

/// The watermark queries a list of entries asks for, in order.
pub open spec fn tasks_of(entries: Seq<((Seq<char>, Seq<char>, Seq<char>), Seq<i64>)>) -> Seq<
    (Seq<char>, i32),
>
    decreases entries.len(),
{
    if entries.len() == 0 {
        Seq::empty()
    } else {
        tasks_of(entries.drop_last()) + entry_tasks(entries.last())
    }
}

/// The `(topic, partition)` pairs whose watermarks the lag view needs: one
/// query per partition of each entry's topic.
pub fn watermark_tasks(offsets: &Vec<OffsetsEntry>) -> (r: Vec<(TopicName, i32)>)
    requires
        forall|i: int|
            0 <= i < offsets.deep_view().len() ==> (#[trigger] offsets.deep_view()[i]).1.len()
                <= i32::MAX,
    ensures
        r.deep_view() == tasks_of(offsets.deep_view()),
{
    let ghost dv = offsets.deep_view();
    let mut out: Vec<(TopicName, i32)> = Vec::new();
    let n = offsets.len();
    let mut i: usize = 0;
    while i < n
        invariant
            i <= n,
            n == offsets@.len(),
            dv == offsets.deep_view(),
            dv.len() == n,
            forall|k: int| 0 <= k < n ==> (#[trigger] dv[k]).1.len() <= i32::MAX,
            out.deep_view() == tasks_of(dv.take(i as int)),
        decreases n - i,
    {
        let entry: &OffsetsEntry = &offsets[i];
        proof {
            assert(dv[i as int] == offsets@[i as int].deep_view());
        }
        let m = entry.1.len();
        let mut j: usize = 0;
        while j < m
            invariant
                j <= m,
                i < n,
                n == offsets@.len(),
                m == entry.1@.len(),
                entry == &offsets@[i as int],
                dv == offsets.deep_view(),
                dv.len() == n,
                dv[i as int] == offsets@[i as int].deep_view(),
                m == dv[i as int].1.len(),
                m <= i32::MAX,
                out.deep_view() == tasks_of(dv.take(i as int)) + entry_tasks(dv[i as int]).take(
                    j as int,
                ),
            decreases m - j,
        {
            let ghost prev = out.deep_view();
            out.push((entry.0.2.clone(), j as i32));
            proof {
                assert(out.deep_view() =~= prev.push((entry.0.2@, j as i32)));
                assert(entry_tasks(dv[i as int])[j as int] == (dv[i as int].0.2, j as i32));
                assert(dv[i as int].0.2 == entry.0.2@);
                assert(entry_tasks(dv[i as int]).take(j + 1) =~= entry_tasks(
                    dv[i as int],
                ).take(j as int).push(entry_tasks(dv[i as int])[j as int]));
                assert(out.deep_view() =~= tasks_of(dv.take(i as int)) + entry_tasks(
                    dv[i as int],
                ).take(j + 1));
            }
            j = j + 1;
        }
        proof {
            assert(entry_tasks(dv[i as int]).take(m as int) =~= entry_tasks(dv[i as int]));
            assert(dv.take(i + 1).drop_last() =~= dv.take(i as int));
            assert(dv.take(i + 1).last() == dv[i as int]);
            assert(out.deep_view() =~= tasks_of(dv.take(i + 1)));
        }
        i = i + 1;
    }
    proof {
        assert(dv.take(n as int) =~= dv);
    }
    out
}

// ---------------------------------------------------------------------------
// lag rows
// ---------------------------------------------------------------------------

/// The result of one watermark query, keyed by topic and partition; the
/// query may fail without failing the view.
pub type WatermarkResult = ((TopicName, i32), Option<(i64, i64)>);

/// The first result recorded for `(topic, p)`, if any query answered.
pub open spec fn wm_lookup(
    wms: Seq<((Seq<char>, i32), Option<(i64, i64)>)>,
    topic: Seq<char>,
    p: i32,
) -> Option<(i64, i64)>
    decreases wms.len(),
{
    if wms.len() == 0 {
        None
    } else if wms[0].0.0 == topic && wms[0].0.1 == p {
        wms[0].1
    } else {
        wm_lookup(wms.drop_first(), topic, p)
    }
}

/// `n` clipped to the `i64` range.
pub open spec fn sat_i64(n: int) -> int {
    if n > i64::MAX {
        i64::MAX as int
    } else if n < i64::MIN {
        i64::MIN as int
    } else {
        n
    }
}

/// The lag of one partition: `high - offset` clipped to the `i64` range
/// when the watermark query answered, `-1` when it failed.
pub open spec fn row_lag(wm: Option<(i64, i64)>, offset: i64) -> int {
    match wm {
        Some(lh) => sat_i64(lh.1 - offset),
        None => -1,
    }
}

/// What the lag column shows for one partition: the partition is empty when
/// its high watermark is zero, the offset is out of retention when it lies
/// below the low watermark, and otherwise the row's lag value in decimal —
/// `-1` when the watermark query failed.
pub open spec fn lag_display(low: i64, high: i64, offset: i64, lag: int) -> Seq<char> {
    if high == 0 {
        "Empty topic"@
    } else if offset - low < 0 {
        "Out of retention"@
    } else {
        dec_chars_int(lag)
    }
}

/// One row of the lag view.
pub struct LagRow {
    pub topic: TopicName,
    pub partition: i32,
    pub low: i64,
    pub high: i64,
    pub offset: i64,
    pub lag_display: String,
}

impl View for LagRow {
    type V = (Seq<char>, i32, i64, i64, i64, Seq<char>);

    open spec fn view(&self) -> (Seq<char>, i32, i64, i64, i64, Seq<char>) {
        (self.topic@, self.partition, self.low, self.high, self.offset, self.lag_display@)
    }
}

impl DeepView for LagRow {
    type V = (Seq<char>, i32, i64, i64, i64, Seq<char>);

    open spec fn deep_view(&self) -> (Seq<char>, i32, i64, i64, i64, Seq<char>) {
        self@
    }
}

/// The row for one partition of one entry, given that query's outcome.
pub open spec fn row_view(topic: Seq<char>, p: i32, offset: i64, wm: Option<(i64, i64)>) -> (
    Seq<char>,
    i32,
    i64,
    i64,
    i64,
    Seq<char>,
) {
    let lh = match wm {
        Some(lh) => lh,
        None => (-1i64, -1i64),
    };
    (topic, p, lh.0, lh.1, offset, lag_display(lh.0, lh.1, offset, row_lag(wm, offset)))
}

/// The rows one entry contributes, one per partition.
pub open spec fn entry_rows(
    e: ((Seq<char>, Seq<char>, Seq<char>), Seq<i64>),
    wms: Seq<((Seq<char>, i32), Option<(i64, i64)>)>,
) -> Seq<(Seq<char>, i32, i64, i64, i64, Seq<char>)>
    recommends
        e.1.len() <= i32::MAX,
{
    Seq::new(e.1.len(), |j: int| row_view(e.0.2, j as i32, e.1[j], wm_lookup(wms, e.0.2, j as i32)))
}

/// The rows of the whole view, entry by entry.
pub open spec fn rows_of(
    entries: Seq<((Seq<char>, Seq<char>, Seq<char>), Seq<i64>)>,
    wms: Seq<((Seq<char>, i32), Option<(i64, i64)>)>,
) -> Seq<(Seq<char>, i32, i64, i64, i64, Seq<char>)>
    decreases entries.len(),
{
    if entries.len() == 0 {
        Seq::empty()
    } else {
        rows_of(entries.drop_last(), wms) + entry_rows(entries.last(), wms)
    }
}

/// The first watermark result recorded for `(topic, p)`.
fn lookup_wm(wms: &Vec<WatermarkResult>, topic: &str, p: i32) -> (r: Option<(i64, i64)>)
    ensures
        r == wm_lookup(wms.deep_view(), topic@, p),
{
    let n = wms.len();
    proof {
        assert(wms.deep_view().skip(0) =~= wms.deep_view());
    }
    let mut i: usize = 0;
    while i < n
        invariant
            i <= n,
            n == wms@.len(),
            wms.deep_view().len() == n,
            wm_lookup(wms.deep_view(), topic@, p) == wm_lookup(
                wms.deep_view().skip(i as int),
                topic@,
                p,
            ),
        decreases n - i,
    {
        let entry: &WatermarkResult = &wms[i];
        proof {
            assert(wms.deep_view()[i as int] == wms@[i as int].deep_view());
            assert(wms.deep_view().skip(i as int)[0] == wms.deep_view()[i as int]);
            assert(wms.deep_view().skip(i as int).drop_first() =~= wms.deep_view().skip(i + 1));
        }
        if str_eq(entry.0.0.as_str(), topic) && entry.0.1 == p {
            return entry.1;
        }
        i = i + 1;
    }
    proof {
        assert(wms.deep_view().skip(n as int) =~= Seq::<
            ((Seq<char>, i32), Option<(i64, i64)>),
        >::empty());
    }
    None
}

/// The lag of one partition: `high - offset`, clipped to the `i64` range.
fn sat_lag(high: i64, offset: i64) -> (r: i64)
    ensures
        r as int == sat_i64(high - offset),
{
    let d: i128 = high as i128 - offset as i128;
    if d > i64::MAX as i128 {
        i64::MAX
    } else if d < i64::MIN as i128 {
        i64::MIN
    } else {
        d as i64
    }
}

/// Builds the rows of the lag view: for every entry and every partition of
/// its topic, the watermarks that came back, the committed offset, and the
/// display rule of `lag_display`.
pub fn lag_rows(offsets: &Vec<OffsetsEntry>, wms: &Vec<WatermarkResult>) -> (r: Vec<LagRow>)
    requires
        forall|i: int|
            0 <= i < offsets.deep_view().len() ==> (#[trigger] offsets.deep_view()[i]).1.len()
                <= i32::MAX,
    ensures
        r.deep_view() == rows_of(offsets.deep_view(), wms.deep_view()),
{
    let ghost dv = offsets.deep_view();
    let ghost wv = wms.deep_view();
    let mut out: Vec<LagRow> = Vec::new();
    let n = offsets.len();
    let mut i: usize = 0;
    while i < n
        invariant
            i <= n,
            n == offsets@.len(),
            dv == offsets.deep_view(),
            wv == wms.deep_view(),
            dv.len() == n,
            forall|k: int| 0 <= k < n ==> (#[trigger] dv[k]).1.len() <= i32::MAX,
            out.deep_view() == rows_of(dv.take(i as int), wv),
        decreases n - i,
    {
        let entry: &OffsetsEntry = &offsets[i];
        proof {
            assert(dv[i as int] == offsets@[i as int].deep_view());
        }
        let m = entry.1.len();
        let mut j: usize = 0;
        while j < m
            invariant
                j <= m,
                i < n,
                n == offsets@.len(),
                m == entry.1@.len(),
                entry == &offsets@[i as int],
                dv == offsets.deep_view(),
                wv == wms.deep_view(),
                dv.len() == n,
                dv[i as int] == offsets@[i as int].deep_view(),
                m == dv[i as int].1.len(),
                m <= i32::MAX,
                out.deep_view() == rows_of(dv.take(i as int), wv) + entry_rows(
                    dv[i as int],
                    wv,
                ).take(j as int),
            decreases m - j,
        {
            let topic: &String = &entry.0.2;
            let offset: i64 = entry.1[j];
            let wm = lookup_wm(wms, topic.as_str(), j as i32);
            let (low, high): (i64, i64) = match wm {
                Some(lh) => lh,
                None => (-1i64, -1i64),
            };
            let lag: i64 = match wm {
                Some(_) => sat_lag(high, offset),
                None => -1,
            };
            let display: String = if high == 0 {
                "Empty topic".to_owned()
            } else {
                let below: bool = (offset as i128 - low as i128) < 0;
                if below {
                    "Out of retention".to_owned()
                } else {
                    i64_to_dec_string(lag)
                }
            };
            let ghost prev = out.deep_view();
            let row = LagRow {
                topic: topic.clone(),
                partition: j as i32,
                low,
                high,
                offset,
                lag_display: display,
            };
            proof {
                assert(dv[i as int].1[j as int] == entry.1@[j as int]);
                assert(dv[i as int].0.2 == entry.0.2@);
                assert(row.deep_view() == entry_rows(dv[i as int], wv)[j as int]);
            }
            out.push(row);
            proof {
                assert(out.deep_view() =~= prev.push(entry_rows(dv[i as int], wv)[j as int]));
                assert(entry_rows(dv[i as int], wv).take(j + 1) =~= entry_rows(
                    dv[i as int],
                    wv,
                ).take(j as int).push(entry_rows(dv[i as int], wv)[j as int]));
                assert(out.deep_view() =~= rows_of(dv.take(i as int), wv) + entry_rows(
                    dv[i as int],
                    wv,
                ).take(j + 1));
            }
            j = j + 1;
        }
        proof {
            assert(entry_rows(dv[i as int], wv).take(m as int) =~= entry_rows(dv[i as int], wv));
            assert(dv.take(i + 1).drop_last() =~= dv.take(i as int));
            assert(dv.take(i + 1).last() == dv[i as int]);
            assert(out.deep_view() =~= rows_of(dv.take(i + 1), wv));
        }
        i = i + 1;
    }
    proof {
        assert(dv.take(n as int) =~= dv);
    }
    out
}

} // verus!
