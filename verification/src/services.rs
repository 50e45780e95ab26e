//! Free-slot search and schedule suggestion over a day's working hours.
use vstd::prelude::*;

use vstd::string::StringExecFns;

use crate::models::TimeBlock;
use crate::text::is_blank;
use crate::time::{
    at_time, day_of, spec_at_time, spec_day_of, valid_day, valid_time_of_day, valid_timestamp,
    MAX_DURATION_SECONDS,
};
use crate::validation::{validate_non_empty, ValidationError};

verus! {

/// A free span of time, from `start` up to `end` (seconds since the epoch).
#[derive(Debug, Clone, Copy, PartialEq, Eq, Structural)]
pub struct FreeSlot {
    pub start: i64,
    pub end: i64,
}

/// Scheduling of time blocks within working hours.
pub struct ScheduleService;

// ---------------------------------------------------------------------------
// Specification of the free-slot search.
/// The span `(start, end)` of each block.
pub open spec fn spans(blocks: Seq<TimeBlock>) -> Seq<(i64, i64)> {
    blocks.map_values(|b: TimeBlock| (b.start_time, b.end_time))
}

/// The span ends after `lo` and starts before `hi`.
pub open spec fn meets_window(span: (i64, i64), lo: i64, hi: i64) -> bool {
    span.1 > lo && span.0 < hi
}

pub open spec fn max_i64(a: i64, b: i64) -> i64 {
    if a >= b {
        a
    } else {
        b
    }
}

pub open spec fn min_i64(a: i64, b: i64) -> i64 {
    if a <= b {
        a
    } else {
        b
    }
}

/// `x` inserted into `sorted` after every span that starts no later than it.
pub open spec fn insert_by_start(sorted: Seq<(i64, i64)>, x: (i64, i64)) -> Seq<(i64, i64)>
    decreases sorted.len(),
{
    if sorted.len() == 0 {
        seq![x]
    } else if sorted.last().0 <= x.0 {
        sorted.push(x)
    } else {
        insert_by_start(sorted.drop_last(), x).push(sorted.last())
    }
}

/// The spans ordered by start; spans that start together keep their order
/// (a stable sort).
pub open spec fn sort_by_start(s: Seq<(i64, i64)>) -> Seq<(i64, i64)>
    decreases s.len(),
{
    if s.len() == 0 {
        s
    } else {
        insert_by_start(sort_by_start(s.drop_last()), s.last())
    }
}

/// Walks the sorted busy spans from `lo` on: before each span, the gap since
/// the cursor (the furthest end seen, at least `lo`) is a slot when it lasts
/// at least `min` seconds. Spans are clipped to the window `[lo, hi]`.
/// Yields the slots and the final cursor.
pub open spec fn sweep(sorted: Seq<(i64, i64)>, lo: i64, hi: i64, min: int) -> (Seq<FreeSlot>, i64)
    decreases sorted.len(),
{
    if sorted.len() == 0 {
        (Seq::empty(), lo)
    } else {
        let (slots, cursor) = sweep(sorted.drop_last(), lo, hi, min);
        let b = sorted.last();
        let bs = max_i64(b.0, lo);
        let be = min_i64(b.1, hi);
        let slots2 = if bs > cursor && bs - cursor >= min {
            slots.push(FreeSlot { start: cursor, end: bs })
        } else {
            slots
        };
        (slots2, if be > cursor {
            be
        } else {
            cursor
        })
    }
}

/// The first `n` elements, or all when there are fewer.
pub open spec fn first_n<A>(s: Seq<A>, n: int) -> Seq<A> {
    if n < s.len() {
        s.take(n)
    } else {
        s
    }
}

/// The slots before the spans of the window, then the one after the last,
/// at most `count` of them when a count is given.
pub open spec fn free_slots_in(
    spans: Seq<(i64, i64)>,
    lo: i64,
    hi: i64,
    min: int,
    count: Option<usize>,
) -> Seq<FreeSlot> {
    let sorted = sort_by_start(spans.filter(|s: (i64, i64)| meets_window(s, lo, hi)));
    let (inner, cursor) = sweep(sorted, lo, hi, min);
    let all = if hi > cursor && hi - cursor >= min {
        inner.push(FreeSlot { start: cursor, end: hi })
    } else {
        inner
    };
    match count {
        None => all,
        Some(c) => first_n(all, c as int),
    }
}

/// The free slots of `date` between `work_start` and `work_end` (seconds
/// after midnight, UTC) around the busy spans, that last at least
/// `duration_minutes`.
pub open spec fn spec_free_slots_of_spans(
    busy: Seq<(i64, i64)>,
    date: i64,
    duration_minutes: i64,
    count: Option<usize>,
    work_start: u32,
    work_end: u32,
) -> Seq<FreeSlot> {
    let lo = spec_at_time(date as int, work_start as int);
    let hi = spec_at_time(date as int, work_end as int);
    if duration_minutes <= 0 || hi <= lo {
        Seq::empty()
    } else {
        free_slots_in(busy, lo as i64, hi as i64, duration_minutes * 60, count)
    }
}

/// The free slots of `date` between `work_start` and `work_end` (seconds
/// after midnight, UTC) around the blocks, that last at least
/// `duration_minutes`.
pub open spec fn spec_free_slots(
    blocks: Seq<TimeBlock>,
    date: i64,
    duration_minutes: i64,
    count: Option<usize>,
    work_start: u32,
    work_end: u32,
) -> Seq<FreeSlot> {
    spec_free_slots_of_spans(spans(blocks), date, duration_minutes, count, work_start, work_end)
}

/// A limit on the number of slots keeps the earliest ones: the search gives
/// the first slots of the unlimited search, as many as the limit allows, so
/// never more than the limit.
pub proof fn lemma_count_limit_keeps_earliest(
    blocks: Seq<TimeBlock>,
    date: i64,
    duration_minutes: i64,
    count: usize,
    work_start: u32,
    work_end: u32,
)
    ensures
        spec_free_slots(blocks, date, duration_minutes, Some(count), work_start, work_end)
            == first_n(
            spec_free_slots(blocks, date, duration_minutes, None, work_start, work_end),
            count as int,
        ),
{
}

// ---------------------------------------------------------------------------
// Sorting.
proof fn lemma_insert_at(t: Seq<(i64, i64)>, x: (i64, i64), j: int)
    requires
        0 <= j <= t.len(),
        forall|k: int| j <= k < t.len() ==> #[trigger] t[k].0 > x.0,
        j == 0 || t[j - 1].0 <= x.0,
    ensures
        insert_by_start(t, x) == t.insert(j, x),
    decreases t.len(),
{
    if t.len() == 0 {
        assert(t.insert(j, x) =~= seq![x]);
    } else if t.last().0 <= x.0 {
        assert(t.insert(j, x) =~= t.push(x));
    } else {
        let t2 = t.drop_last();
        lemma_insert_at(t2, x, j);
        assert(t2.insert(j, x).push(t.last()) =~= t.insert(j, x));
    }
}

proof fn lemma_insert_elements(t: Seq<(i64, i64)>, x: (i64, i64))
    ensures
        insert_by_start(t, x).len() == t.len() + 1,
        forall|y: (i64, i64)|
            #[trigger] insert_by_start(t, x).contains(y) ==> y == x || t.contains(y),
        insert_by_start(t, x).contains(x),
        forall|y: (i64, i64)| #[trigger] t.contains(y) ==> insert_by_start(t, x).contains(y),
    decreases t.len(),
{
    if t.len() > 0 && !(t.last().0 <= x.0) {
        let t2 = t.drop_last();
        lemma_insert_elements(t2, x);
        assert forall|y: (i64, i64)| #[trigger] insert_by_start(t, x).contains(y) implies y == x
            || t.contains(y) by {
            let r = insert_by_start(t2, x);
            let k = choose|k: int| 0 <= k < r.push(t.last()).len() && r.push(t.last())[k] == y;
            if k < r.len() {
                assert(r.contains(y));
                if t2.contains(y) {
                    let q = choose|q: int| 0 <= q < t2.len() && t2[q] == y;
                    assert(t[q] == y);
                }
            } else {
                assert(t[t.len() - 1] == y);
            }
        }
        let r = insert_by_start(t2, x);
        assert(r.push(t.last()).contains(x)) by {
            let k = choose|k: int| 0 <= k < r.len() && r[k] == x;
            assert(r.push(t.last())[k] == x);
        }
        assert forall|y: (i64, i64)| #[trigger] t.contains(y) implies insert_by_start(
            t,
            x,
        ).contains(y) by {
            let q = choose|q: int| 0 <= q < t.len() && t[q] == y;
            if q < t2.len() {
                assert(t2[q] == y);
                assert(t2.contains(y));
                assert(r.contains(y));
                let k = choose|k: int| 0 <= k < r.len() && r[k] == y;
                assert(r.push(t.last())[k] == y);
            } else {
                assert(r.push(t.last())[r.len() as int] == y);
            }
        }
    } else if t.len() > 0 {
        assert(t.push(x)[t.len() as int] == x);
        assert forall|y: (i64, i64)| #[trigger] t.contains(y) implies insert_by_start(
            t,
            x,
        ).contains(y) by {
            let q = choose|q: int| 0 <= q < t.len() && t[q] == y;
            assert(t.push(x)[q] == y);
        }
        assert forall|y: (i64, i64)| #[trigger] insert_by_start(t, x).contains(y) implies y == x
            || t.contains(y) by {
            let k = choose|k: int| 0 <= k < t.push(x).len() && t.push(x)[k] == y;
            if k < t.len() {
                assert(t[k] == y);
            }
        }
    } else {
        assert(seq![x][0] == x);
    }
}

/// The spans are ordered by start.
pub open spec fn sorted_by_start(s: Seq<(i64, i64)>) -> bool {
    forall|i: int, j: int| 0 <= i <= j < s.len() ==> #[trigger] s[i].0 <= #[trigger] s[j].0
}

proof fn lemma_insert_sorted(t: Seq<(i64, i64)>, x: (i64, i64))
    requires
        sorted_by_start(t),
    ensures
        sorted_by_start(insert_by_start(t, x)),
    decreases t.len(),
{
    if t.len() > 0 && !(t.last().0 <= x.0) {
        let t2 = t.drop_last();
        lemma_insert_sorted(t2, x);
        lemma_insert_elements(t2, x);
        let r = insert_by_start(t2, x);
        assert forall|i: int, j: int| 0 <= i <= j < r.push(t.last()).len() implies #[trigger] r.push(
            t.last(),
        )[i].0 <= #[trigger] r.push(t.last())[j].0 by {
            if j == r.len() && i < r.len() {
                assert(r.contains(r[i]));
                if r[i] != x {
                    let q = choose|q: int| 0 <= q < t2.len() && t2[q] == r[i];
                    assert(t[q] == r[i]);
                }
            }
        }
    }
}

pub(crate) proof fn lemma_sort_sorted(s: Seq<(i64, i64)>)
    ensures
        sorted_by_start(sort_by_start(s)),
    decreases s.len(),
{
    if s.len() > 0 {
        lemma_sort_sorted(s.drop_last());
        lemma_insert_sorted(sort_by_start(s.drop_last()), s.last());
    }
}

pub(crate) proof fn lemma_sort_elements(s: Seq<(i64, i64)>)
    ensures
        sort_by_start(s).len() == s.len(),
        forall|y: (i64, i64)| #[trigger] sort_by_start(s).contains(y) ==> s.contains(y),
        forall|y: (i64, i64)| #[trigger] s.contains(y) ==> sort_by_start(s).contains(y),
    decreases s.len(),
{
    if s.len() > 0 {
        let s2 = s.drop_last();
        lemma_sort_elements(s2);
        lemma_insert_elements(sort_by_start(s2), s.last());
        assert forall|y: (i64, i64)| #[trigger] s.contains(y) implies sort_by_start(s).contains(
            y,
        ) by {
            let q = choose|q: int| 0 <= q < s.len() && s[q] == y;
            if q < s2.len() {
                assert(s2[q] == y);
                assert(s2.contains(y));
            }
        }
        assert forall|y: (i64, i64)| #[trigger] sort_by_start(s).contains(y) implies s.contains(
            y,
        ) by {
            if y == s.last() {
                assert(s[s.len() - 1] == y);
            } else {
                assert(sort_by_start(s2).contains(y));
                assert(s2.contains(y));
                let q = choose|q: int| 0 <= q < s2.len() && s2[q] == y;
                assert(s[q] == y);
            }
        }
    }
}

/// The spans ordered by start, spans that start together kept in order.
pub(crate) fn sort_spans(v: &Vec<(i64, i64)>) -> (r: Vec<(i64, i64)>)
    ensures
        r@ == sort_by_start(v@),
{
    let mut out: Vec<(i64, i64)> = Vec::new();
    let n = v.len();
    let mut i: usize = 0;
    while i < n
        invariant
            n == v@.len(),
            i <= n,
            out@ == sort_by_start(v@.take(i as int)),
        decreases n - i,
    {
        let x = v[i];
        let mut j = out.len();
        while j > 0 && out[j - 1].0 > x.0
            invariant
                j <= out@.len(),
                forall|k: int| j <= k < out@.len() ==> #[trigger] out@[k].0 > x.0,
            decreases j,
        {
            j = j - 1;
        }
        proof {
            lemma_insert_at(out@, x, j as int);
            assert(v@.take(i + 1).drop_last() =~= v@.take(i as int));
            assert(v@.take(i + 1).last() == x);
        }
        out.insert(j, x);
        i = i + 1;
    }
    proof {
        assert(v@.take(n as int) =~= v@);
    }
    out
}

// ---------------------------------------------------------------------------
// Sweep lemmas.
/// The slots found over a prefix of the spans begin the slots found over all
/// of them.
proof fn lemma_sweep_prefix(s: Seq<(i64, i64)>, i: int, lo: i64, hi: i64, min: int)
    requires
        0 <= i <= s.len(),
    ensures
        sweep(s.take(i), lo, hi, min).0.len() <= sweep(s, lo, hi, min).0.len(),
        sweep(s, lo, hi, min).0.take(sweep(s.take(i), lo, hi, min).0.len() as int) == sweep(
            s.take(i),
            lo,
            hi,
            min,
        ).0,
    decreases s.len() - i,
{
    if i == s.len() {
        assert(s.take(i) =~= s);
        assert(sweep(s, lo, hi, min).0.take(sweep(s, lo, hi, min).0.len() as int) =~= sweep(
            s,
            lo,
            hi,
            min,
        ).0);
    } else {
        lemma_sweep_prefix(s, i + 1, lo, hi, min);
        assert(s.take(i + 1).drop_last() =~= s.take(i));
        let a = sweep(s.take(i), lo, hi, min).0;
        let b = sweep(s.take(i + 1), lo, hi, min).0;
        let c = sweep(s, lo, hi, min).0;
        assert(b.take(a.len() as int) =~= a);
        assert(c.take(a.len() as int) =~= c.take(b.len() as int).take(a.len() as int));
    }
}

/// The cursor stays inside the window, and every slot lies inside it.
proof fn lemma_sweep_bounds(s: Seq<(i64, i64)>, lo: i64, hi: i64, min: int)
    requires
        lo <= hi,
        forall|k: int| 0 <= k < s.len() ==> meets_window(#[trigger] s[k], lo, hi),
    ensures
        lo <= sweep(s, lo, hi, min).1 <= hi,
        forall|k: int|
            0 <= k < sweep(s, lo, hi, min).0.len() ==> lo <= (#[trigger] sweep(
                s,
                lo,
                hi,
                min,
            ).0[k]).start && sweep(s, lo, hi, min).0[k].end <= hi && sweep(s, lo, hi, min).0[k].end
                - sweep(s, lo, hi, min).0[k].start >= min,
    decreases s.len(),
{
    if s.len() > 0 {
        lemma_sweep_bounds(s.drop_last(), lo, hi, min);
    }
}

/// The slot holds the stretch from `t` to `u`.
pub open spec fn holds(slot: FreeSlot, t: int, u: int) -> bool {
    slot.start <= t && u <= slot.end
}

/// Over sorted proper spans of the window that all keep clear of the stretch
/// from `t` to `t + min`: while every span seen starts before the stretch
/// ends, the cursor has not passed `t`; once one starts at or after its end,
/// a slot holding the stretch has been found.
proof fn lemma_sweep_complete(s: Seq<(i64, i64)>, lo: i64, hi: i64, min: int, t: int, n: int)
    requires
        0 < min,
        lo <= t,
        t + min <= hi,
        0 <= n <= s.len(),
        sorted_by_start(s),
        forall|k: int| 0 <= k < s.len() ==> meets_window(#[trigger] s[k], lo, hi),
        forall|k: int| 0 <= k < s.len() ==> (#[trigger] s[k]).1 <= t || s[k].0 >= t + min,
    ensures
        (forall|p: int| 0 <= p < n ==> (#[trigger] s[p]).0 < t + min) ==> sweep(s.take(n), lo, hi, min).1
            <= t,
        (exists|p: int| 0 <= p < n && (#[trigger] s[p]).0 >= t + min) ==> exists|k: int|
            0 <= k < sweep(s.take(n), lo, hi, min).0.len() && holds(
                #[trigger] sweep(s.take(n), lo, hi, min).0[k],
                t,
                t + min,
            ),
    decreases n,
{
    if n == 0 {
        assert(s.take(0) =~= Seq::<(i64, i64)>::empty());
    } else {
        lemma_sweep_complete(s, lo, hi, min, t, n - 1);
        let tk = s.take(n);
        assert(tk.drop_last() =~= s.take(n - 1));
        assert(tk.last() == s[n - 1]);
        let (slots0, c0) = sweep(s.take(n - 1), lo, hi, min);
        let (slots1, c1) = sweep(tk, lo, hi, min);
        let b = s[n - 1];
        let bs = max_i64(b.0, lo);
        let be = min_i64(b.1, hi);
        assert forall|k: int| 0 <= k < slots0.len() implies #[trigger] slots1[k] == slots0[k] by {
            if bs > c0 && bs - c0 >= min {
                assert(slots1 == slots0.push(FreeSlot { start: c0, end: bs }));
            }
        }
        if exists|p: int| 0 <= p < n - 1 && (#[trigger] s[p]).0 >= t + min {
            let k = choose|k: int| 0 <= k < slots0.len() && holds(#[trigger] slots0[k], t, t + min);
            assert(slots1[k] == slots0[k]);
            if bs > c0 && bs - c0 >= min {
                assert(slots1.len() == slots0.len() + 1);
            }
        } else {
            assert(forall|p: int| 0 <= p < n - 1 ==> (#[trigger] s[p]).0 < t + min);
            assert(c0 <= t);
            if b.0 >= t + min {
                assert(bs == b.0);
                assert(slots1 == slots0.push(FreeSlot { start: c0, end: bs }));
                assert(holds(slots1[slots0.len() as int], t, t + min));
            } else {
                assert(b.1 <= t);
                assert forall|p: int| 0 <= p < n implies (#[trigger] s[p]).0 < t + min by {
                    if p < n - 1 {
                        assert(s[p].0 < t + min);
                    }
                }
            }
        }
    }
}

/// No free time is missed: when every block ends after it starts, a stretch
/// of the working hours of `date` as long as the duration asked for that no
/// block overlaps lies within one of the slots found (with no limit on their
/// number).
pub proof fn lemma_free_slots_complete(
    blocks: Seq<TimeBlock>,
    date: i64,
    duration_minutes: i64,
    work_start: u32,
    work_end: u32,
    t: int,
)
    requires
        valid_day(date as int),
        valid_time_of_day(work_start as int),
        valid_time_of_day(work_end as int),
        duration_minutes > 0,
        spec_at_time(date as int, work_start as int) <= t,
        t + duration_minutes * 60 <= spec_at_time(date as int, work_end as int),
        forall|b: int| 0 <= b < blocks.len() ==> (#[trigger] blocks[b]).start_time < blocks[b].end_time,
        forall|b: int|
            0 <= b < blocks.len() ==> (#[trigger] blocks[b]).end_time <= t || blocks[b].start_time
                >= t + duration_minutes * 60,
    ensures
        exists|k: int|
            0 <= k < spec_free_slots(blocks, date, duration_minutes, None, work_start, work_end).len()
                && holds(
                #[trigger] spec_free_slots(
                    blocks,
                    date,
                    duration_minutes,
                    None,
                    work_start,
                    work_end,
                )[k],
                t,
                t + duration_minutes * 60,
            ),
{
    let lo = spec_at_time(date as int, work_start as int) as i64;
    let hi = spec_at_time(date as int, work_end as int) as i64;
    let min = duration_minutes * 60;
    let sp = spans(blocks);
    let pred = |x: (i64, i64)| meets_window(x, lo, hi);
    let filt = sp.filter(pred);
    let sorted = sort_by_start(filt);
    lemma_sort_sorted(filt);
    lemma_sort_elements(filt);
    assert forall|k: int| 0 <= k < sorted.len() implies meets_window(#[trigger] sorted[k], lo, hi)
        && (sorted[k].1 <= t || sorted[k].0 >= t + min) by {
        assert(sorted.contains(sorted[k]));
        assert(filt.contains(sorted[k]));
        let q = choose|q: int| 0 <= q < filt.len() && filt[q] == sorted[k];
        sp.lemma_filter_pred(pred, q);
        assert(filt.contains(filt[q]));
        sp.lemma_filter_contains_rev(pred, filt[q]);
        let b = choose|b: int| 0 <= b < sp.len() && sp[b] == filt[q];
        assert(sp[b] == (blocks[b].start_time, blocks[b].end_time));
    }
    let n = sorted.len() as int;
    lemma_sweep_complete(sorted, lo, hi, min, t, n);
    assert(sorted.take(n) =~= sorted);
    let (inner, cur) = sweep(sorted, lo, hi, min);
    let all = if hi > cur && hi - cur >= min {
        inner.push(FreeSlot { start: cur, end: hi })
    } else {
        inner
    };
    assert(spec_free_slots(blocks, date, duration_minutes, None, work_start, work_end) == all);
    if exists|p: int| 0 <= p < n && (#[trigger] sorted[p]).0 >= t + min {
        let k = choose|k: int| 0 <= k < inner.len() && holds(#[trigger] inner[k], t, t + min);
        if all != inner {
            assert(all[k] == inner[k]);
        }
        assert(holds(all[k], t, t + min));
    } else {
        assert(cur <= t);
        assert(all == inner.push(FreeSlot { start: cur, end: hi }));
        assert(holds(all[inner.len() as int], t, t + min));
    }
}

/// The slot and the span share no time.
pub open spec fn apart(slot: FreeSlot, span: (i64, i64)) -> bool {
    slot.end <= span.0 || slot.start >= span.1
}

/// What the sweep keeps over the first `n` sorted spans of the window: the
/// cursor has passed the (clipped) end of each, each slot is apart from each
/// proper span seen and ends before every span still to come, and, when the
/// spans seen are all proper, the slots come in order and end by the cursor.
proof fn lemma_sweep_laws(s: Seq<(i64, i64)>, lo: i64, hi: i64, min: int, n: int)
    requires
        lo < hi,
        0 < min,
        0 <= n <= s.len(),
        sorted_by_start(s),
        forall|k: int| 0 <= k < s.len() ==> meets_window(#[trigger] s[k], lo, hi),
    ensures
        lo <= sweep(s.take(n), lo, hi, min).1 <= hi,
        forall|p: int| 0 <= p < n ==> sweep(s.take(n), lo, hi, min).1 >= min_i64(#[trigger] s[p].1, hi),
        forall|k: int, p: int|
            0 <= k < sweep(s.take(n), lo, hi, min).0.len() && 0 <= p < n && s[p].0 < s[p].1 ==> apart(
                #[trigger] sweep(s.take(n), lo, hi, min).0[k],
                #[trigger] s[p],
            ),
        forall|k: int, p: int|
            0 <= k < sweep(s.take(n), lo, hi, min).0.len() && n <= p < s.len() ==> (#[trigger] sweep(
                s.take(n),
                lo,
                hi,
                min,
            ).0[k]).end <= (#[trigger] s[p]).0,
        (forall|p: int| 0 <= p < n ==> #[trigger] s[p].0 < s[p].1) ==> {
            &&& forall|k: int|
                0 <= k < sweep(s.take(n), lo, hi, min).0.len() ==> (#[trigger] sweep(
                    s.take(n),
                    lo,
                    hi,
                    min,
                ).0[k]).end < sweep(s.take(n), lo, hi, min).1
            &&& forall|i: int, j: int|
                0 <= i < j < sweep(s.take(n), lo, hi, min).0.len() ==> (#[trigger] sweep(
                    s.take(n),
                    lo,
                    hi,
                    min,
                ).0[i]).end < (#[trigger] sweep(s.take(n), lo, hi, min).0[j]).start
        },
    decreases n,
{
    if n == 0 {
        assert(s.take(0) =~= Seq::<(i64, i64)>::empty());
    } else {
        lemma_sweep_laws(s, lo, hi, min, n - 1);
        let t = s.take(n);
        assert(t.drop_last() =~= s.take(n - 1));
        assert(t.last() == s[n - 1]);
        let (slots0, cur0) = sweep(s.take(n - 1), lo, hi, min);
        let (slots1, cur1) = sweep(t, lo, hi, min);
        let b = s[n - 1];
        assert(meets_window(b, lo, hi));
        let bs = max_i64(b.0, lo);
        let be = min_i64(b.1, hi);
        let pushed = bs > cur0 && bs - cur0 >= min;
        if pushed {
            assert(slots1 == slots0.push(FreeSlot { start: cur0, end: bs }));
            assert(bs == b.0);
        } else {
            assert(slots1 == slots0);
        }
        assert forall|k: int, p: int|
            0 <= k < slots1.len() && 0 <= p < n && s[p].0 < s[p].1 implies apart(
            #[trigger] slots1[k],
            #[trigger] s[p],
        ) by {
            if k < slots0.len() {
                assert(slots1[k] == slots0[k]);
                if p == n - 1 {
                    assert(slots0[k].end <= s[n - 1].0);
                }
            } else {
                if p < n - 1 {
                    assert(cur0 >= min_i64(s[p].1, hi));
                    assert(meets_window(s[p], lo, hi));
                }
            }
        }
        assert forall|k: int, p: int| 0 <= k < slots1.len() && n <= p < s.len() implies (
        #[trigger] slots1[k]).end <= (#[trigger] s[p]).0 by {
            if k < slots0.len() {
                assert(slots1[k] == slots0[k]);
            } else {
                assert(s[n - 1].0 <= s[p].0);
            }
        }
        if forall|p: int| 0 <= p < n ==> #[trigger] s[p].0 < s[p].1 {
            assert(forall|p: int| 0 <= p < n - 1 ==> #[trigger] s[p].0 < s[p].1);
            assert(b.0 < b.1);
            assert forall|k: int| 0 <= k < slots1.len() implies (#[trigger] slots1[k]).end
                < cur1 by {
                if k < slots0.len() {
                    assert(slots1[k] == slots0[k]);
                }
            }
            assert forall|i: int, j: int| 0 <= i < j < slots1.len() implies (
            #[trigger] slots1[i]).end < (#[trigger] slots1[j]).start by {
                if j < slots0.len() {
                    assert(slots1[i] == slots0[i]);
                    assert(slots1[j] == slots0[j]);
                } else {
                    assert(slots1[i] == slots0[i]);
                }
            }
        }
    }
}

proof fn lemma_free_slot_laws_spans(
    busy: Seq<(i64, i64)>,
    date: i64,
    duration_minutes: i64,
    count: Option<usize>,
    work_start: u32,
    work_end: u32,
)
    requires
        valid_day(date as int),
        valid_time_of_day(work_start as int),
        valid_time_of_day(work_end as int),
    ensures
        ({
            let slots = spec_free_slots_of_spans(
                busy,
                date,
                duration_minutes,
                count,
                work_start,
                work_end,
            );
            let lo = spec_at_time(date as int, work_start as int);
            let hi = spec_at_time(date as int, work_end as int);
            &&& forall|k: int, b: int|
                0 <= k < slots.len() && 0 <= b < busy.len() && busy[b].0 < busy[b].1 ==> apart(
                    #[trigger] slots[k],
                    #[trigger] busy[b],
                )
            &&& forall|k: int|
                0 <= k < slots.len() ==> lo <= (#[trigger] slots[k]).start && slots[k].end <= hi
                    && slots[k].end - slots[k].start >= duration_minutes * 60
            &&& (forall|b: int| 0 <= b < busy.len() ==> #[trigger] busy[b].0 < busy[b].1)
                ==> forall|i: int, j: int|
                0 <= i < j < slots.len() ==> (#[trigger] slots[i]).end < (#[trigger] slots[j]).start
        }),
{
    let slots = spec_free_slots_of_spans(busy, date, duration_minutes, count, work_start, work_end);
    let lo_i = spec_at_time(date as int, work_start as int);
    let hi_i = spec_at_time(date as int, work_end as int);
    if duration_minutes <= 0 || hi_i <= lo_i {
        return;
    }
    let lo = lo_i as i64;
    let hi = hi_i as i64;
    let min = duration_minutes * 60;
    let pred = |s: (i64, i64)| meets_window(s, lo, hi);
    let sp = busy;
    let filt = sp.filter(pred);
    let sorted = sort_by_start(filt);
    lemma_sort_sorted(filt);
    lemma_sort_elements(filt);
    assert forall|k: int| 0 <= k < sorted.len() implies meets_window(#[trigger] sorted[k], lo, hi) by {
        assert(sorted.contains(sorted[k]));
        assert(filt.contains(sorted[k]));
        let q = choose|q: int| 0 <= q < filt.len() && filt[q] == sorted[k];
        sp.lemma_filter_pred(pred, q);
    }
    lemma_sweep_laws(sorted, lo, hi, min, sorted.len() as int);
    assert(sorted.take(sorted.len() as int) =~= sorted);
    lemma_sweep_bounds(sorted, lo, hi, min);
    let (inner, cur) = sweep(sorted, lo, hi, min);
    let all = if hi > cur && hi - cur >= min {
        inner.push(FreeSlot { start: cur, end: hi })
    } else {
        inner
    };
    assert forall|k: int| 0 <= k < slots.len() implies #[trigger] slots[k] == all[k] && k
        < all.len() by {
        match count {
            None => {},
            Some(c) => {
                if (c as int) < all.len() {
                    assert(all.take(c as int)[k] == all[k]);
                }
            },
        }
    }
    assert forall|k: int, b: int|
        0 <= k < slots.len() && 0 <= b < busy.len() && busy[b].0 < busy[b].1 implies apart(
        #[trigger] slots[k],
        #[trigger] busy[b],
    ) by {
        let x = busy[b];
        if meets_window(x, lo, hi) {
            sp.lemma_filter_contains(pred, b);
            assert(filt.contains(x));
            assert(sorted.contains(x));
            let p = choose|p: int| 0 <= p < sorted.len() && sorted[p] == x;
            if k < inner.len() {
                assert(all[k] == inner[k]);
            } else {
                assert(cur >= min_i64(sorted[p].1, hi));
            }
        } else {
            if k < inner.len() {
                assert(all[k] == inner[k]);
            }
        }
    }
    assert forall|k: int| 0 <= k < slots.len() implies lo <= (#[trigger] slots[k]).start
        && slots[k].end <= hi && slots[k].end - slots[k].start >= duration_minutes * 60 by {
        if k < inner.len() {
            assert(all[k] == inner[k]);
        }
    }
    if forall|b: int| 0 <= b < busy.len() ==> #[trigger] busy[b].0 < busy[b].1 {
        assert forall|p: int| 0 <= p < sorted.len() implies #[trigger] sorted[p].0 < sorted[p].1 by {
            assert(sorted.contains(sorted[p]));
            assert(filt.contains(sorted[p]));
            let q = choose|q: int| 0 <= q < filt.len() && filt[q] == sorted[p];
            assert(filt.contains(filt[q]));
            sp.lemma_filter_contains_rev(pred, filt[q]);
            let b = choose|b: int| 0 <= b < sp.len() && sp[b] == filt[q];
            assert(busy[b].0 < busy[b].1);
        }
        assert forall|i: int, j: int| 0 <= i < j < slots.len() implies (
        #[trigger] slots[i]).end < (#[trigger] slots[j]).start by {
            assert(slots[i] == all[i]);
            assert(slots[j] == all[j]);
            if j < inner.len() {
                assert(all[i] == inner[i]);
                assert(all[j] == inner[j]);
            } else {
                assert(all[i] == inner[i]);
            }
        }
    }
}

/// Free slots never overlap a busy block: every slot that the search returns
/// shares no time with any block whose end comes after its start. Every slot
/// lies within the working hours of the day and lasts at least the duration
/// asked for. When every block ends after it starts, the slots come in
/// chronological order, each ending strictly before the next begins.
pub proof fn lemma_free_slot_laws(
    blocks: Seq<TimeBlock>,
    date: i64,
    duration_minutes: i64,
    count: Option<usize>,
    work_start: u32,
    work_end: u32,
)
    requires
        valid_day(date as int),
        valid_time_of_day(work_start as int),
        valid_time_of_day(work_end as int),
    ensures
        ({
            let slots = spec_free_slots(blocks, date, duration_minutes, count, work_start, work_end);
            let lo = spec_at_time(date as int, work_start as int);
            let hi = spec_at_time(date as int, work_end as int);
            &&& forall|k: int, b: int|
                0 <= k < slots.len() && 0 <= b < blocks.len() && blocks[b].start_time
                    < blocks[b].end_time ==> apart(
                    #[trigger] slots[k],
                    (#[trigger] blocks[b].start_time, blocks[b].end_time),
                )
            &&& forall|k: int|
                0 <= k < slots.len() ==> lo <= (#[trigger] slots[k]).start && slots[k].end <= hi
                    && slots[k].end - slots[k].start >= duration_minutes * 60
            &&& (forall|b: int|
                0 <= b < blocks.len() ==> #[trigger] blocks[b].start_time < blocks[b].end_time)
                ==> forall|i: int, j: int|
                0 <= i < j < slots.len() ==> (#[trigger] slots[i]).end < (#[trigger] slots[j]).start
        }),
{
    let sp = spans(blocks);
    lemma_free_slot_laws_spans(sp, date, duration_minutes, count, work_start, work_end);
    let slots = spec_free_slots(blocks, date, duration_minutes, count, work_start, work_end);
    assert forall|k: int, b: int|
        0 <= k < slots.len() && 0 <= b < blocks.len() && blocks[b].start_time
            < blocks[b].end_time implies apart(
        #[trigger] slots[k],
        (#[trigger] blocks[b].start_time, blocks[b].end_time),
    ) by {
        assert(sp[b] == (blocks[b].start_time, blocks[b].end_time));
    }
    if forall|b: int| 0 <= b < blocks.len() ==> #[trigger] blocks[b].start_time < blocks[b].end_time {
        assert forall|b: int| 0 <= b < sp.len() implies #[trigger] sp[b].0 < sp[b].1 by {
            assert(blocks[b].start_time < blocks[b].end_time);
        }
    }
}

/// The free slots around the busy spans; see `ScheduleService::find_free_slots`.
fn free_slots_of_spans(
    busy: &Vec<(i64, i64)>,
    date: i64,
    duration_minutes: i64,
    count: Option<usize>,
    work_start: u32,
    work_end: u32,
) -> (r: Vec<FreeSlot>)
    requires
        valid_day(date as int),
        valid_time_of_day(work_start as int),
        valid_time_of_day(work_end as int),
        duration_minutes > 0 && work_start < work_end ==> duration_minutes * 60
            <= MAX_DURATION_SECONDS,
    ensures
        r@ == spec_free_slots_of_spans(busy@, date, duration_minutes, count, work_start, work_end),
{
    if duration_minutes <= 0 {
        return Vec::new();
    }
    let day_start = at_time(date, work_start);
    let day_end = at_time(date, work_end);
    if day_end <= day_start {
        return Vec::new();
    }
    if let Some(c) = count {
        if c == 0 {
            return Vec::new();
        }
    }
    let ghost pred = |s: (i64, i64)| meets_window(s, day_start, day_end);
    let ghost all_spans = busy@;
    let mut day_spans: Vec<(i64, i64)> = Vec::new();
    let nb = busy.len();
    let mut i: usize = 0;
    while i < nb
        invariant
            nb == busy@.len(),
            i <= nb,
            all_spans == busy@,
            pred == (|s: (i64, i64)| meets_window(s, day_start, day_end)),
            day_spans@ == all_spans.take(i as int).filter(pred),
        decreases nb - i,
    {
        let b = busy[i];
        proof {
            reveal_with_fuel(Seq::filter, 1);
            assert(all_spans.take(i + 1).drop_last() =~= all_spans.take(i as int));
            assert(all_spans.take(i + 1).last() == b);
        }
        if b.1 > day_start && b.0 < day_end {
            day_spans.push(b);
        }
        i = i + 1;
    }
    proof {
        assert(all_spans.take(nb as int) =~= all_spans);
    }
    let sorted = sort_spans(&day_spans);
    proof {
        assert(pred == (|s: (i64, i64)| meets_window(s, day_start, day_end)));
        assert(sorted@ == sort_by_start(
            busy@.filter(|s: (i64, i64)| meets_window(s, day_start, day_end)),
        ));
        lemma_sort_elements(day_spans@);
        assert forall|k: int| 0 <= k < sorted@.len() implies meets_window(
            #[trigger] sorted@[k],
            day_start,
            day_end,
        ) by {
            assert(sort_by_start(day_spans@).contains(sorted@[k]));
            assert(day_spans@.contains(sorted@[k]));
            let q = choose|q: int| 0 <= q < day_spans@.len() && day_spans@[q] == sorted@[k];
            all_spans.lemma_filter_pred(pred, q);
        }
    }
    let min = duration_minutes * 60;
    let mut cursor = day_start;
    let mut slots: Vec<FreeSlot> = Vec::new();
    let ns = sorted.len();
    let mut k: usize = 0;
    while k < ns
        invariant
            ns == sorted@.len(),
            k <= ns,
            day_start < day_end,
            day_end - day_start < 86400,
            day_start == spec_at_time(date as int, work_start as int),
            day_end == spec_at_time(date as int, work_end as int),
            sorted@ == sort_by_start(
                busy@.filter(|s: (i64, i64)| meets_window(s, day_start, day_end)),
            ),
            min == duration_minutes * 60,
            0 < min <= MAX_DURATION_SECONDS,
            forall|q: int| 0 <= q < sorted@.len() ==> meets_window(#[trigger] sorted@[q], day_start, day_end),
            (slots@, cursor) == sweep(sorted@.take(k as int), day_start, day_end, min as int),
            day_start <= cursor <= day_end,
            count matches Some(c) ==> 1 <= c && slots@.len() < c,
        decreases ns - k,
    {
        let (s, e) = sorted[k];
        proof {
            assert(sorted@.take(k + 1).drop_last() =~= sorted@.take(k as int));
            assert(sorted@.take(k + 1).last() == (s, e));
            assert(meets_window(sorted@[k as int], day_start, day_end));
        }
        let bs = if s >= day_start {
            s
        } else {
            day_start
        };
        let be = if e <= day_end {
            e
        } else {
            day_end
        };
        if bs > cursor && bs - cursor >= min {
            slots.push(FreeSlot { start: cursor, end: bs });
            if let Some(c) = count {
                if slots.len() >= c {
                    proof {
                        lemma_sweep_prefix(sorted@, k + 1, day_start, day_end, min as int);
                        let inner = sweep(sorted@, day_start, day_end, min as int).0;
                        let len = slots@.len() as int;
                        assert(inner.take(len) == slots@);
                        assert(len == c);
                        let cur = sweep(sorted@, day_start, day_end, min as int).1;
                        let all = if day_end > cur && day_end - cur >= min {
                            inner.push(FreeSlot { start: cur, end: day_end })
                        } else {
                            inner
                        };
                        assert(all.take(len) =~= inner.take(len));
                    }
                    return slots;
                }
            }
        }
        if be > cursor {
            cursor = be;
        }
        k = k + 1;
    }
    proof {
        assert(sorted@.take(ns as int) =~= sorted@);
    }
    if day_end > cursor && day_end - cursor >= min {
        slots.push(FreeSlot { start: cursor, end: day_end });
    }
    if let Some(c) = count {
        slots.truncate(c);
    }
    slots
}

impl ScheduleService {
    /// The free slots of `date` between `work_start` and `work_end` (seconds
    /// after midnight, UTC) that last at least `duration_minutes`, earliest
    /// first, at most `count` of them when a count is given.
    pub fn find_free_slots(
        blocks: &[TimeBlock],
        date: i64,
        duration_minutes: i64,
        count: Option<usize>,
        work_start: u32,
        work_end: u32,
    ) -> (r: Vec<FreeSlot>)
        requires
            valid_day(date as int),
            valid_time_of_day(work_start as int),
            valid_time_of_day(work_end as int),
            duration_minutes > 0 && work_start < work_end ==> duration_minutes * 60
                <= MAX_DURATION_SECONDS,
        ensures
            r@ == spec_free_slots(blocks@, date, duration_minutes, count, work_start, work_end),
    {
        let mut busy: Vec<(i64, i64)> = Vec::new();
        let nb = blocks.len();
        let mut i: usize = 0;
        while i < nb
            invariant
                nb == blocks@.len(),
                i <= nb,
                busy@ == spans(blocks@).take(i as int),
            decreases nb - i,
        {
            busy.push((blocks[i].start_time, blocks[i].end_time));
            proof {
                assert(spans(blocks@).take(i + 1) =~= spans(blocks@).take(i as int).push(
                    (blocks@[i as int].start_time, blocks@[i as int].end_time),
                ));
            }
            i = i + 1;
        }
        proof {
            assert(spans(blocks@).take(nb as int) =~= spans(blocks@));
        }
        free_slots_of_spans(&busy, date, duration_minutes, count, work_start, work_end)
    }
}

// ---------------------------------------------------------------------------
// Schedule suggestion.
/// A task to place in the day.
#[derive(Debug, Clone, PartialEq, Eq)]
pub struct ScheduleTask {
    pub id: String,
    pub title: String,
    pub duration_minutes: i64,
    /// Higher numbers go first.
    pub priority: i32,
    /// A task that needs concentration; it starts right at the beginning of
    /// its free slot.
    pub focus: bool,
}

/// A task placed in the day.
#[derive(Debug, Clone, PartialEq, Eq)]
pub struct ScheduledTask {
    pub task_id: String,
    pub title: String,
    pub start: i64,
    pub end: i64,
}

/// The placed tasks, in the order they were placed, and a warning for each
/// task that could not be placed.
#[derive(Debug, Clone, PartialEq, Eq)]
pub struct ScheduleSuggestion {
    pub scheduled: Vec<ScheduledTask>,
    pub warnings: Vec<String>,
}

/// Start of the working hours: 09:00.
pub const WORK_START: u32 = 32_400;

/// End of the working hours: 21:00.
pub const WORK_END: u32 = 75_600;

/// Noon, the end of the morning in which a task that needs focus starts.
pub const NOON: u32 = 43_200;

/// The buffer kept after each placed task, and before a task that needs no
/// focus: 15 minutes.
pub const BUFFER_SECONDS: i64 = 900;

/// The span a placed task keeps busy: the task with a buffer before and
/// after it.
pub open spec fn reserved(start: i64, end: i64) -> (i64, i64) {
    ((start - BUFFER_SECONDS) as i64, (end + BUFFER_SECONDS) as i64)
}

/// `x` goes before `y`: higher priority, or equal priority and `x` needs
/// focus while `y` does not.
pub open spec fn outranks(x: ScheduleTask, y: ScheduleTask) -> bool {
    x.priority > y.priority || (x.priority == y.priority && x.focus && !y.focus)
}

/// `x` inserted into `ranked` after every task that it does not outrank.
pub open spec fn insert_by_rank(ranked: Seq<ScheduleTask>, x: ScheduleTask) -> Seq<ScheduleTask>
    decreases ranked.len(),
{
    if ranked.len() == 0 {
        seq![x]
    } else if !outranks(x, ranked.last()) {
        ranked.push(x)
    } else {
        insert_by_rank(ranked.drop_last(), x).push(ranked.last())
    }
}

/// The tasks by priority, highest first, focus tasks first among equals,
/// tasks of equal rank kept in their order (a stable sort).
pub open spec fn rank_tasks(tasks: Seq<ScheduleTask>) -> Seq<ScheduleTask>
    decreases tasks.len(),
{
    if tasks.len() == 0 {
        tasks
    } else {
        insert_by_rank(rank_tasks(tasks.drop_last()), tasks.last())
    }
}

/// The span of an existing block falls on `date` by its start or its end.
pub open spec fn touches_day(span: (i64, i64), date: i64) -> bool {
    spec_day_of(span.0 as int) == date || spec_day_of(span.1 as int) == date
}

/// The busy spans of the day that the planning starts from.
pub open spec fn day_occupation(existing: Seq<TimeBlock>, date: i64) -> Seq<(i64, i64)> {
    sort_by_start(spans(existing).filter(|s: (i64, i64)| touches_day(s, date)))
}

/// How long a task lasts: its minutes, at least one.
pub open spec fn task_length(task: ScheduleTask) -> int {
    if task.duration_minutes >= 1 {
        task.duration_minutes * 60
    } else {
        60
    }
}

pub open spec fn no_fit_warning(title: Seq<char>) -> Seq<char> {
    "task '"@ + title + "' does not fit available slots"@
}

pub open spec fn over_capacity_warning(title: Seq<char>) -> Seq<char> {
    "task '"@ + title + "' exceeded daily capacity"@
}

pub open spec fn morning_full_warning(title: Seq<char>) -> Seq<char> {
    "task '"@ + title + "' does not fit in the morning"@
}

/// Noon of `date`.
pub open spec fn noon_of(date: i64) -> int {
    spec_at_time(date as int, NOON as int)
}

/// The planning state: busy spans, placed tasks, warnings.
pub type PlanState = (Seq<(i64, i64)>, Seq<ScheduledTask>, Seq<Seq<char>>);

/// Places one task: in the first free slot of the day long enough for it,
/// at the start of the slot when it needs focus and one buffer later
/// otherwise; the span it takes, with a buffer before and after it, becomes
/// busy. A
/// task that needs focus is placed in the morning only: when that slot
/// starts at noon or later it gets a warning. A task that finds no slot, or
/// does not fit in the first one after the buffer, gets a warning too.
pub open spec fn plan_step(state: PlanState, task: ScheduleTask, date: i64) -> PlanState {
    let (busy, placed, warnings) = state;
    let slots = spec_free_slots_of_spans(busy, date, task.duration_minutes, None, WORK_START, WORK_END);
    if slots.len() > 0 && task.focus && slots[0].start >= noon_of(date) {
        (busy, placed, warnings.push(morning_full_warning(task.title@)))
    } else if slots.len() > 0 {
        let slot = slots[0];
        let start = if task.focus {
            slot.start
        } else {
            (slot.start + BUFFER_SECONDS) as i64
        };
        let end = (start + task_length(task)) as i64;
        if end <= slot.end {
            (
                sort_by_start(busy.push(reserved(start, end))),
                placed.push(ScheduledTask { task_id: task.id, title: task.title, start, end }),
                warnings,
            )
        } else {
            (busy, placed, warnings.push(no_fit_warning(task.title@)))
        }
    } else {
        (busy, placed, warnings.push(over_capacity_warning(task.title@)))
    }
}

/// Places the tasks one after another.
pub open spec fn plan(tasks: Seq<ScheduleTask>, busy: Seq<(i64, i64)>, date: i64) -> PlanState
    decreases tasks.len(),
{
    if tasks.len() == 0 {
        (busy, Seq::empty(), Seq::empty())
    } else {
        plan_step(plan(tasks.drop_last(), busy, date), tasks.last(), date)
    }
}

/// Some task has a blank title.
pub open spec fn some_blank_title(tasks: Seq<ScheduleTask>) -> bool {
    exists|i: int| 0 <= i < tasks.len() && is_blank(#[trigger] tasks[i].title@)
}

/// The plan of the ranked tasks around the blocks of the day.
pub open spec fn spec_schedule(
    tasks: Seq<ScheduleTask>,
    existing: Seq<TimeBlock>,
    date: i64,
) -> PlanState {
    plan(rank_tasks(tasks), day_occupation(existing, date), date)
}

pub open spec fn warning_texts(warnings: Seq<String>) -> Seq<Seq<char>> {
    warnings.map_values(|w: String| w@)
}

fn copy_task(t: &ScheduleTask) -> (r: ScheduleTask)
    ensures
        r == *t,
{
    ScheduleTask {
        id: t.id.clone(),
        title: t.title.clone(),
        duration_minutes: t.duration_minutes,
        priority: t.priority,
        focus: t.focus,
    }
}

fn outranks_exec(x: &ScheduleTask, y: &ScheduleTask) -> (r: bool)
    ensures
        r == outranks(*x, *y),
{
    x.priority > y.priority || (x.priority == y.priority && x.focus && !y.focus)
}

proof fn lemma_insert_rank_at(t: Seq<ScheduleTask>, x: ScheduleTask, j: int)
    requires
        0 <= j <= t.len(),
        forall|k: int| j <= k < t.len() ==> outranks(x, #[trigger] t[k]),
        j == 0 || !outranks(x, t[j - 1]),
    ensures
        insert_by_rank(t, x) == t.insert(j, x),
    decreases t.len(),
{
    if t.len() == 0 {
        assert(t.insert(j, x) =~= seq![x]);
    } else if !outranks(x, t.last()) {
        assert(t.insert(j, x) =~= t.push(x));
    } else {
        let t2 = t.drop_last();
        lemma_insert_rank_at(t2, x, j);
        assert(t2.insert(j, x).push(t.last()) =~= t.insert(j, x));
    }
}

/// The tasks in rank order.
fn rank(tasks: &[ScheduleTask]) -> (r: Vec<ScheduleTask>)
    ensures
        r@ == rank_tasks(tasks@),
{
    let mut out: Vec<ScheduleTask> = Vec::new();
    let n = tasks.len();
    let mut i: usize = 0;
    while i < n
        invariant
            n == tasks@.len(),
            i <= n,
            out@ == rank_tasks(tasks@.take(i as int)),
        decreases n - i,
    {
        let x = copy_task(&tasks[i]);
        let mut j = out.len();
        while j > 0 && outranks_exec(&x, &out[j - 1])
            invariant
                j <= out@.len(),
                forall|k: int| j <= k < out@.len() ==> outranks(x, #[trigger] out@[k]),
            decreases j,
        {
            j = j - 1;
        }
        proof {
            lemma_insert_rank_at(out@, x, j as int);
            assert(tasks@.take(i + 1).drop_last() =~= tasks@.take(i as int));
            assert(tasks@.take(i + 1).last() == x);
        }
        out.insert(j, x);
        i = i + 1;
    }
    proof {
        assert(tasks@.take(n as int) =~= tasks@);
    }
    out
}

impl ScheduleService {
    /// Suggests where the tasks go on `target_date`: in rank order, each in
    /// the first free slot of the working hours (09:00 to 21:00, UTC) that
    /// fits it, around the blocks that start or end on that day and the tasks
    /// already placed, any two placed tasks kept a 15-minute buffer apart
    /// (a task that needs no focus starts one buffer into its slot). A task that needs focus is
    /// placed in the morning, starting before noon, or gets a warning.
    /// Refused when a task's title is blank.
    pub fn suggest_schedule(
        tasks: &[ScheduleTask],
        existing_blocks: &[TimeBlock],
        target_date: i64,
    ) -> (r: Result<ScheduleSuggestion, ValidationError>)
        requires
            valid_day(target_date as int),
            !some_blank_title(tasks@) ==> forall|i: int|
                0 <= i < tasks@.len() ==> #[trigger] tasks@[i].duration_minutes * 60
                    <= MAX_DURATION_SECONDS,
        ensures
            some_blank_title(tasks@) ==> r == Err::<ScheduleSuggestion, ValidationError>(
                ValidationError::Empty { field: "title" },
            ),
            !some_blank_title(tasks@) ==> (r matches Ok(s) && s.scheduled@ == spec_schedule(
                tasks@,
                existing_blocks@,
                target_date,
            ).1 && warning_texts(s.warnings@) == spec_schedule(
                tasks@,
                existing_blocks@,
                target_date,
            ).2),
    {
        let nt = tasks.len();
        let mut i: usize = 0;
        while i < nt
            invariant
                nt == tasks@.len(),
                i <= nt,
                forall|j: int| 0 <= j < i ==> !is_blank(#[trigger] tasks@[j].title@),
            decreases nt - i,
        {
            validate_non_empty(tasks[i].title.as_str(), "title")?;
            i = i + 1;
        }
        let ranked = rank(tasks);
        proof {
            assert(!some_blank_title(tasks@));
            lemma_rank_elements(tasks@);
            assert forall|k: int| 0 <= k < ranked@.len() implies #[trigger] ranked@[k].duration_minutes
                * 60 <= MAX_DURATION_SECONDS by {
                assert(rank_tasks(tasks@).contains(ranked@[k]));
                let q = choose|q: int| 0 <= q < tasks@.len() && tasks@[q] == ranked@[k];
            }
        }
        let ghost pred = |s: (i64, i64)| touches_day(s, target_date);
        let ghost all_spans = spans(existing_blocks@);
        let mut day_spans: Vec<(i64, i64)> = Vec::new();
        let nb = existing_blocks.len();
        let mut b: usize = 0;
        while b < nb
            invariant
                nb == existing_blocks@.len(),
                b <= nb,
                all_spans == spans(existing_blocks@),
                pred == (|s: (i64, i64)| touches_day(s, target_date)),
                day_spans@ == all_spans.take(b as int).filter(pred),
            decreases nb - b,
        {
            let blk = &existing_blocks[b];
            proof {
                reveal_with_fuel(Seq::filter, 1);
                assert(all_spans.take(b + 1).drop_last() =~= all_spans.take(b as int));
                assert(all_spans.take(b + 1).last() == (blk.start_time, blk.end_time));
            }
            if day_of(blk.start_time) == target_date || day_of(blk.end_time) == target_date {
                day_spans.push((blk.start_time, blk.end_time));
            }
            b = b + 1;
        }
        proof {
            assert(all_spans.take(nb as int) =~= all_spans);
        }
        let mut occupied = sort_spans(&day_spans);
        let ghost busy0 = occupied@;
        proof {
            assert(busy0 == day_occupation(existing_blocks@, target_date));
        }
        let mut scheduled: Vec<ScheduledTask> = Vec::new();
        let mut warnings: Vec<String> = Vec::new();
        let nr = ranked.len();
        let mut k: usize = 0;
        while k < nr
            invariant
                nr == ranked@.len(),
                k <= nr,
                valid_day(target_date as int),
                forall|q: int|
                    0 <= q < ranked@.len() ==> #[trigger] ranked@[q].duration_minutes * 60
                        <= MAX_DURATION_SECONDS,
                (occupied@, scheduled@, warning_texts(warnings@)) == plan(
                    ranked@.take(k as int),
                    busy0,
                    target_date,
                ),
            decreases nr - k,
        {
            let task = &ranked[k];
            proof {
                assert(ranked@.take(k + 1).drop_last() =~= ranked@.take(k as int));
                assert(ranked@.take(k + 1).last() == *task);
                lemma_free_slot_laws_spans(
                    occupied@,
                    target_date,
                    task.duration_minutes,
                    None,
                    WORK_START,
                    WORK_END,
                );
            }
            let slots = free_slots_of_spans(
                &occupied,
                target_date,
                task.duration_minutes,
                None,
                WORK_START,
                WORK_END,
            );
            let ghost old_warnings = warnings@;
            let noon = at_time(target_date, NOON);
            if slots.len() > 0 && task.focus && slots[0].start >= noon {
                let w = String::from_str("task '").concat(task.title.as_str()).concat(
                    "' does not fit in the morning",
                );
                warnings.push(w);
                proof {
                    assert(warning_texts(warnings@) =~= warning_texts(old_warnings).push(
                        morning_full_warning(task.title@),
                    ));
                }
            } else if slots.len() > 0 {
                let slot = slots[0];
                let length: i64 = if task.duration_minutes >= 1 {
                    task.duration_minutes * 60
                } else {
                    60
                };
                let start = if task.focus {
                    slot.start
                } else {
                    slot.start + BUFFER_SECONDS
                };
                let end = start + length;
                if end <= slot.end {
                    occupied.push((start - BUFFER_SECONDS, end + BUFFER_SECONDS));
                    occupied = sort_spans(&occupied);
                    scheduled.push(
                        ScheduledTask {
                            task_id: task.id.clone(),
                            title: task.title.clone(),
                            start,
                            end,
                        },
                    );
                } else {
                    let w = String::from_str("task '").concat(task.title.as_str()).concat(
                        "' does not fit available slots",
                    );
                    warnings.push(w);
                    proof {
                        assert(warning_texts(warnings@) =~= warning_texts(old_warnings).push(
                            no_fit_warning(task.title@),
                        ));
                    }
                }
            } else {
                let w = String::from_str("task '").concat(task.title.as_str()).concat(
                    "' exceeded daily capacity",
                );
                warnings.push(w);
                proof {
                    assert(warning_texts(warnings@) =~= warning_texts(old_warnings).push(
                        over_capacity_warning(task.title@),
                    ));
                }
            }
            k = k + 1;
        }
        proof {
            assert(ranked@.take(nr as int) =~= ranked@);
        }
        Ok(ScheduleSuggestion { scheduled, warnings })
    }
}

proof fn lemma_insert_rank_elements(t: Seq<ScheduleTask>, x: ScheduleTask)
    ensures
        insert_by_rank(t, x).len() == t.len() + 1,
        forall|y: ScheduleTask|
            #[trigger] insert_by_rank(t, x).contains(y) ==> y == x || t.contains(y),
    decreases t.len(),
{
    if t.len() > 0 && outranks(x, t.last()) {
        let t2 = t.drop_last();
        lemma_insert_rank_elements(t2, x);
        assert forall|y: ScheduleTask| #[trigger] insert_by_rank(t, x).contains(y) implies y == x
            || t.contains(y) by {
            let r = insert_by_rank(t2, x);
            let k = choose|k: int| 0 <= k < r.push(t.last()).len() && r.push(t.last())[k] == y;
            if k < r.len() {
                assert(r.contains(y));
                if t2.contains(y) {
                    let q = choose|q: int| 0 <= q < t2.len() && t2[q] == y;
                    assert(t[q] == y);
                }
            } else {
                assert(t[t.len() - 1] == y);
            }
        }
    } else if t.len() > 0 {
        assert forall|y: ScheduleTask| #[trigger] insert_by_rank(t, x).contains(y) implies y == x
            || t.contains(y) by {
            let k = choose|k: int| 0 <= k < t.push(x).len() && t.push(x)[k] == y;
            if k < t.len() {
                assert(t[k] == y);
            }
        }
    }
}

proof fn lemma_rank_elements(s: Seq<ScheduleTask>)
    ensures
        rank_tasks(s).len() == s.len(),
        forall|y: ScheduleTask| #[trigger] rank_tasks(s).contains(y) ==> s.contains(y),
    decreases s.len(),
{
    if s.len() > 0 {
        let s2 = s.drop_last();
        lemma_rank_elements(s2);
        lemma_insert_rank_elements(rank_tasks(s2), s.last());
        assert forall|y: ScheduleTask| #[trigger] rank_tasks(s).contains(y) implies s.contains(
            y,
        ) by {
            if y == s.last() {
                assert(s[s.len() - 1] == y);
            } else {
                assert(rank_tasks(s2).contains(y));
                assert(s2.contains(y));
                let q = choose|q: int| 0 <= q < s2.len() && s2[q] == y;
                assert(s[q] == y);
            }
        }
    }
}

/// The two spans share no time.
pub open spec fn spans_apart(a: (i64, i64), b: (i64, i64)) -> bool {
    a.1 <= b.0 || a.0 >= b.1
}

/// What planning keeps: one entry, placed task or warning, per task; the
/// busy spans keep those it started from and gain each placed task with its
/// buffer; placed tasks lie within the working hours, never overlap a proper
/// span they started from, and a task placed later shares no time with an
/// earlier one or the buffer after it.
proof fn lemma_plan_laws(tasks: Seq<ScheduleTask>, busy0: Seq<(i64, i64)>, date: i64)
    requires
        valid_day(date as int),
        forall|i: int|
            0 <= i < tasks.len() ==> #[trigger] tasks[i].duration_minutes * 60 <= MAX_DURATION_SECONDS,
    ensures
        ({
            let (busy, placed, warnings) = plan(tasks, busy0, date);
            let lo = spec_at_time(date as int, WORK_START as int);
            let hi = spec_at_time(date as int, WORK_END as int);
            &&& placed.len() + warnings.len() == tasks.len()
            &&& forall|x: (i64, i64)| #[trigger] busy0.contains(x) ==> busy.contains(x)
            &&& forall|i: int|
                0 <= i < placed.len() ==> busy.contains(
                    reserved((#[trigger] placed[i]).start, placed[i].end),
                )
            &&& forall|i: int|
                0 <= i < placed.len() ==> lo <= (#[trigger] placed[i]).start < placed[i].end <= hi
            &&& forall|i: int, j: int|
                0 <= i < j < placed.len() ==> spans_apart(
                    ((#[trigger] placed[j]).start, placed[j].end),
                    reserved((#[trigger] placed[i]).start, placed[i].end),
                )
            &&& forall|i: int, x: (i64, i64)|
                0 <= i < placed.len() && #[trigger] busy0.contains(x) && x.0 < x.1 ==> spans_apart(
                    ((#[trigger] placed[i]).start, placed[i].end),
                    x,
                )
            &&& forall|i: int|
                0 <= i < placed.len() ==> exists|j: int|
                    0 <= j < tasks.len() && #[trigger] tasks[j].id == (#[trigger] placed[i]).task_id
                        && (tasks[j].focus ==> placed[i].start < noon_of(date))
        }),
    decreases tasks.len(),
{
    if tasks.len() > 0 {
        let rest = tasks.drop_last();
        lemma_plan_laws(rest, busy0, date);
        let task = tasks.last();
        assert(task == tasks[tasks.len() - 1]);
        let (busy, placed, warnings) = plan(rest, busy0, date);
        let lo = spec_at_time(date as int, WORK_START as int);
        let hi = spec_at_time(date as int, WORK_END as int);
        let slots = spec_free_slots_of_spans(
            busy,
            date,
            task.duration_minutes,
            None,
            WORK_START,
            WORK_END,
        );
        lemma_free_slot_laws_spans(busy, date, task.duration_minutes, None, WORK_START, WORK_END);
        assert forall|i: int| 0 <= i < placed.len() implies exists|j: int|
            0 <= j < tasks.len() && #[trigger] tasks[j].id == (#[trigger] placed[i]).task_id
                && (tasks[j].focus ==> placed[i].start < noon_of(date)) by {
            let j = choose|j: int|
                0 <= j < rest.len() && #[trigger] rest[j].id == placed[i].task_id
                    && (rest[j].focus ==> placed[i].start < noon_of(date));
            assert(tasks[j] == rest[j]);
        }
        if slots.len() > 0 && task.focus && slots[0].start >= noon_of(date) {
        } else if slots.len() > 0 {
            let slot = slots[0];
            let start = if task.focus {
                slot.start
            } else {
                (slot.start + BUFFER_SECONDS) as i64
            };
            let end = (start + task_length(task)) as i64;
            if end <= slot.end {
                let item = reserved(start, end);
                let busy1 = sort_by_start(busy.push(item));
                let placed1 = placed.push(
                    ScheduledTask { task_id: task.id, title: task.title, start, end },
                );
                lemma_sort_elements(busy.push(item));
                assert forall|x: (i64, i64)| #[trigger] busy.contains(x) implies busy1.contains(x) by {
                    let q = choose|q: int| 0 <= q < busy.len() && busy[q] == x;
                    assert(busy.push(item)[q] == x);
                    assert(busy.push(item).contains(x));
                }
                assert(busy1.contains(item)) by {
                    assert(busy.push(item)[busy.len() as int] == item);
                    assert(busy.push(item).contains(item));
                }
                assert forall|x: (i64, i64)| busy.contains(x) && x.0 < x.1 implies spans_apart(
                    (start, end),
                    x,
                ) by {
                    let q = choose|q: int| 0 <= q < busy.len() && busy[q] == x;
                    assert(apart(slots[0], busy[q]));
                }
                assert forall|i: int|
                    0 <= i < placed1.len() implies busy1.contains(
                    reserved((#[trigger] placed1[i]).start, placed1[i].end),
                ) by {
                    if i < placed.len() {
                        assert(placed1[i] == placed[i]);
                        assert(busy.contains(reserved(placed[i].start, placed[i].end)));
                    }
                }
                assert forall|i: int, j: int| 0 <= i < j < placed1.len() implies spans_apart(
                    ((#[trigger] placed1[j]).start, placed1[j].end),
                    reserved((#[trigger] placed1[i]).start, placed1[i].end),
                ) by {
                    assert(placed1[i] == placed[i]);
                    if j < placed.len() {
                        assert(placed1[j] == placed[j]);
                    } else {
                        assert(busy.contains(reserved(placed[i].start, placed[i].end)));
                    }
                }
                assert forall|i: int, x: (i64, i64)|
                    0 <= i < placed1.len() && #[trigger] busy0.contains(x) && x.0 < x.1 implies spans_apart(
                    ((#[trigger] placed1[i]).start, placed1[i].end),
                    x,
                ) by {
                    if i < placed.len() {
                        assert(placed1[i] == placed[i]);
                    } else {
                        assert(busy.contains(x));
                    }
                }
                assert forall|i: int| 0 <= i < placed1.len() implies lo <= (
                #[trigger] placed1[i]).start < placed1[i].end <= hi by {
                    if i < placed.len() {
                        assert(placed1[i] == placed[i]);
                    }
                }
                assert forall|i: int| 0 <= i < placed1.len() implies exists|j: int|
                    0 <= j < tasks.len() && #[trigger] tasks[j].id == (#[trigger] placed1[i]).task_id
                        && (tasks[j].focus ==> placed1[i].start < noon_of(date)) by {
                    if i < placed.len() {
                        assert(placed1[i] == placed[i]);
                    } else {
                        let j = tasks.len() - 1;
                        assert(tasks[j].id == placed1[i].task_id);
                    }
                }
            }
        }
    }
}

/// Suggested tasks never collide: each lies within the working hours of the
/// target day, shares no time with any block that starts or ends on that day
/// (and ends after it starts), and any two placed tasks lie at least the
/// 15-minute buffer apart. Every task ends up either placed or named by a
/// warning.
pub proof fn lemma_schedule_laws(tasks: Seq<ScheduleTask>, existing: Seq<TimeBlock>, date: i64)
    requires
        valid_day(date as int),
        forall|i: int|
            0 <= i < tasks.len() ==> #[trigger] tasks[i].duration_minutes * 60 <= MAX_DURATION_SECONDS,
    ensures
        ({
            let (_, placed, warnings) = spec_schedule(tasks, existing, date);
            let lo = spec_at_time(date as int, WORK_START as int);
            let hi = spec_at_time(date as int, WORK_END as int);
            &&& placed.len() + warnings.len() == tasks.len()
            &&& forall|i: int|
                0 <= i < placed.len() ==> lo <= (#[trigger] placed[i]).start < placed[i].end <= hi
            &&& forall|i: int, j: int|
                0 <= i < placed.len() && 0 <= j < placed.len() && i != j ==> (#[trigger] placed[i]).end
                    + BUFFER_SECONDS <= (#[trigger] placed[j]).start || placed[j].end
                    + BUFFER_SECONDS <= placed[i].start
            &&& forall|i: int, b: int|
                0 <= i < placed.len() && 0 <= b < existing.len() && existing[b].start_time
                    < existing[b].end_time && touches_day(
                    (existing[b].start_time, existing[b].end_time),
                    date,
                ) ==> spans_apart(
                    ((#[trigger] placed[i]).start, placed[i].end),
                    (#[trigger] existing[b].start_time, existing[b].end_time),
                )
        }),
{
    let ranked = rank_tasks(tasks);
    lemma_rank_elements(tasks);
    assert forall|i: int| 0 <= i < ranked.len() implies #[trigger] ranked[i].duration_minutes * 60
        <= MAX_DURATION_SECONDS by {
        assert(ranked.contains(ranked[i]));
        let q = choose|q: int| 0 <= q < tasks.len() && tasks[q] == ranked[i];
    }
    let busy0 = day_occupation(existing, date);
    lemma_plan_laws(ranked, busy0, date);
    let (_, placed, warnings) = spec_schedule(tasks, existing, date);
    assert forall|i: int, j: int|
        0 <= i < placed.len() && 0 <= j < placed.len() && i != j implies (#[trigger] placed[i]).end
            + BUFFER_SECONDS <= (#[trigger] placed[j]).start || placed[j].end + BUFFER_SECONDS
            <= placed[i].start by {
        if i < j {
            assert(spans_apart((placed[j].start, placed[j].end), reserved(placed[i].start, placed[i].end)));
        } else {
            assert(spans_apart((placed[i].start, placed[i].end), reserved(placed[j].start, placed[j].end)));
        }
    }
    let pred = |s: (i64, i64)| touches_day(s, date);
    let sp = spans(existing);
    lemma_sort_elements(sp.filter(pred));
    assert forall|i: int, b: int|
        0 <= i < placed.len() && 0 <= b < existing.len() && existing[b].start_time
            < existing[b].end_time && touches_day(
            (existing[b].start_time, existing[b].end_time),
            date,
        ) implies spans_apart(
        ((#[trigger] placed[i]).start, placed[i].end),
        (#[trigger] existing[b].start_time, existing[b].end_time),
    ) by {
        let x = (existing[b].start_time, existing[b].end_time);
        assert(sp[b] == x);
        sp.lemma_filter_contains(pred, b);
        assert(busy0.contains(x));
    }
}

/// A task that needs focus is placed in the morning: when the tasks have
/// distinct ids, a placed task that carries the id of a focus task starts
/// before noon of the target day (a focus task that finds no morning slot
/// gets a warning instead).
pub proof fn lemma_focus_in_morning(tasks: Seq<ScheduleTask>, existing: Seq<TimeBlock>, date: i64)
    requires
        valid_day(date as int),
        forall|i: int|
            0 <= i < tasks.len() ==> #[trigger] tasks[i].duration_minutes * 60 <= MAX_DURATION_SECONDS,
        forall|i: int, j: int| 0 <= i < j < tasks.len() ==> #[trigger] tasks[i].id != #[trigger] tasks[j].id,
    ensures
        ({
            let placed = spec_schedule(tasks, existing, date).1;
            forall|i: int, j: int|
                0 <= i < placed.len() && 0 <= j < tasks.len() && #[trigger] placed[i].task_id
                    == #[trigger] tasks[j].id && tasks[j].focus ==> placed[i].start < noon_of(date)
        }),
{
    let ranked = rank_tasks(tasks);
    lemma_rank_elements(tasks);
    assert forall|i: int| 0 <= i < ranked.len() implies #[trigger] ranked[i].duration_minutes * 60
        <= MAX_DURATION_SECONDS by {
        assert(ranked.contains(ranked[i]));
        let q = choose|q: int| 0 <= q < tasks.len() && tasks[q] == ranked[i];
    }
    let busy0 = day_occupation(existing, date);
    lemma_plan_laws(ranked, busy0, date);
    let placed = spec_schedule(tasks, existing, date).1;
    assert forall|i: int, j: int|
        0 <= i < placed.len() && 0 <= j < tasks.len() && #[trigger] placed[i].task_id
            == #[trigger] tasks[j].id && tasks[j].focus implies placed[i].start < noon_of(date) by {
        let q = choose|q: int|
            0 <= q < ranked.len() && #[trigger] ranked[q].id == placed[i].task_id
                && (ranked[q].focus ==> placed[i].start < noon_of(date));
        assert(ranked.contains(ranked[q]));
        let p = choose|p: int| 0 <= p < tasks.len() && tasks[p] == ranked[q];
        if p != j {
            if p < j {
                assert(tasks[p].id != tasks[j].id);
            } else {
                assert(tasks[j].id != tasks[p].id);
            }
        }
    }
}

proof fn lemma_insert_rank_sorted(t: Seq<ScheduleTask>, x: ScheduleTask)
    requires
        forall|i: int, j: int| 0 <= i < j < t.len() ==> !outranks(#[trigger] t[j], #[trigger] t[i]),
    ensures
        ({
            let r = insert_by_rank(t, x);
            forall|i: int, j: int| 0 <= i < j < r.len() ==> !outranks(#[trigger] r[j], #[trigger] r[i])
        }),
    decreases t.len(),
{
    if t.len() > 0 && outranks(x, t.last()) {
        let t2 = t.drop_last();
        lemma_insert_rank_sorted(t2, x);
        lemma_insert_rank_elements(t2, x);
        let r = insert_by_rank(t2, x);
        assert forall|i: int, j: int| 0 <= i < j < r.push(t.last()).len() implies !outranks(
            #[trigger] r.push(t.last())[j],
            #[trigger] r.push(t.last())[i],
        ) by {
            if j == r.len() {
                assert(r.contains(r[i]));
                if r[i] != x {
                    let q = choose|q: int| 0 <= q < t2.len() && t2[q] == r[i];
                    assert(t[q] == r[i]);
                    assert(!outranks(t[t.len() - 1], t[q]));
                }
            }
        }
    }
}

/// Ranking orders the tasks from highest priority down, a task that needs
/// focus before one that does not among equal priorities, and loses or adds
/// no task.
pub proof fn lemma_rank_order(tasks: Seq<ScheduleTask>)
    ensures
        rank_tasks(tasks).len() == tasks.len(),
        forall|t: ScheduleTask| #[trigger] rank_tasks(tasks).contains(t) ==> tasks.contains(t),
        forall|i: int, j: int|
            0 <= i < j < tasks.len() ==> !outranks(
                #[trigger] rank_tasks(tasks)[j],
                #[trigger] rank_tasks(tasks)[i],
            ),
    decreases tasks.len(),
{
    lemma_rank_elements(tasks);
    if tasks.len() > 0 {
        lemma_rank_order(tasks.drop_last());
        lemma_insert_rank_sorted(rank_tasks(tasks.drop_last()), tasks.last());
    }
}


/// Ranking goes by priority, highest first, and among tasks of equal
/// priority a task that needs focus comes before one that does not.
pub proof fn lemma_rank_priority_then_focus(tasks: Seq<ScheduleTask>)
    ensures
        forall|i: int, j: int|
            0 <= i < j < rank_tasks(tasks).len() ==> (#[trigger] rank_tasks(tasks)[i]).priority
                > (#[trigger] rank_tasks(tasks)[j]).priority || (rank_tasks(tasks)[i].priority
                == rank_tasks(tasks)[j].priority && (rank_tasks(tasks)[i].focus
                || !rank_tasks(tasks)[j].focus)),
{
    lemma_rank_order(tasks);
}

proof fn lemma_insert_rank_multiset(t: Seq<ScheduleTask>, x: ScheduleTask)
    ensures
        insert_by_rank(t, x).to_multiset() =~= t.to_multiset().insert(x),
    decreases t.len(),
{
    broadcast use vstd::seq_lib::to_multiset_build;
    broadcast use vstd::multiset::group_multiset_axioms;

    if t.len() == 0 {
        assert(seq![x] =~= t.push(x));
    } else if !outranks(x, t.last()) {
    } else {
        let t2 = t.drop_last();
        lemma_insert_rank_multiset(t2, x);
        assert(t2.push(t.last()) =~= t);
    }
}

/// Ranking reorders the tasks: it keeps each task as many times as it was
/// given, and adds none.
pub proof fn lemma_rank_is_permutation(tasks: Seq<ScheduleTask>)
    ensures
        rank_tasks(tasks).to_multiset() =~= tasks.to_multiset(),
    decreases tasks.len(),
{
    broadcast use vstd::seq_lib::to_multiset_build;

    if tasks.len() > 0 {
        lemma_rank_is_permutation(tasks.drop_last());
        lemma_insert_rank_multiset(rank_tasks(tasks.drop_last()), tasks.last());
        assert(tasks.drop_last().push(tasks.last()) =~= tasks);
    }
}

proof fn lemma_plan_placed_prefix(tasks: Seq<ScheduleTask>, busy: Seq<(i64, i64)>, date: i64, i: int)
    requires
        0 <= i <= tasks.len(),
    ensures
        plan(tasks.take(i), busy, date).1.len() <= plan(tasks, busy, date).1.len(),
        plan(tasks, busy, date).1.take(plan(tasks.take(i), busy, date).1.len() as int) == plan(
            tasks.take(i),
            busy,
            date,
        ).1,
    decreases tasks.len() - i,
{
    if i == tasks.len() {
        assert(tasks.take(i) =~= tasks);
        assert(plan(tasks, busy, date).1.take(plan(tasks, busy, date).1.len() as int) =~= plan(
            tasks,
            busy,
            date,
        ).1);
    } else {
        lemma_plan_placed_prefix(tasks, busy, date, i + 1);
        assert(tasks.take(i + 1).drop_last() =~= tasks.take(i));
        let a = plan(tasks.take(i), busy, date).1;
        let b = plan(tasks.take(i + 1), busy, date).1;
        let c = plan(tasks, busy, date).1;
        assert(b.take(a.len() as int) =~= a);
        assert(c.take(a.len() as int) =~= c.take(b.len() as int).take(a.len() as int));
    }
}

/// The schedule places work: on a day on which no existing block starts or
/// ends, the first task in rank order, when it lasts at least a minute and
/// at most the working hours less one buffer, is placed first, at the start
/// of the working hours (09:00) when it needs focus and one buffer later
/// (09:15) when it does not.
pub proof fn lemma_first_task_placed(tasks: Seq<ScheduleTask>, existing: Seq<TimeBlock>, date: i64)
    requires
        valid_day(date as int),
        tasks.len() > 0,
        forall|b: int|
            0 <= b < existing.len() ==> !(date * 86400 <= (#[trigger] existing[b]).start_time < date
                * 86400 + 86400) && !(date * 86400 <= existing[b].end_time < date * 86400 + 86400),
        0 < rank_tasks(tasks)[0].duration_minutes,
        rank_tasks(tasks)[0].duration_minutes * 60 + BUFFER_SECONDS <= WORK_END - WORK_START,
    ensures
        ({
            let first = rank_tasks(tasks)[0];
            let placed = spec_schedule(tasks, existing, date).1;
            let start = if first.focus {
                date * 86400 + WORK_START
            } else {
                date * 86400 + WORK_START + BUFFER_SECONDS
            };
            &&& placed.len() > 0
            &&& placed[0].task_id == first.id
            &&& placed[0].title == first.title
            &&& placed[0].start == start
            &&& placed[0].end == start + first.duration_minutes * 60
        }),
{
    let ranked = rank_tasks(tasks);
    lemma_rank_elements(tasks);
    let first = ranked[0];
    let pred = |x: (i64, i64)| touches_day(x, date);
    let sp = spans(existing);
    let filt = sp.filter(pred);
    if filt.len() > 0 {
        sp.lemma_filter_pred(pred, 0);
        assert(filt.contains(filt[0]));
        sp.lemma_filter_contains_rev(pred, filt[0]);
        let b = choose|b: int| 0 <= b < sp.len() && sp[b] == filt[0];
        assert(sp[b] == (existing[b].start_time, existing[b].end_time));
        let st = existing[b].start_time as int;
        let en = existing[b].end_time as int;
        let d = date as int;
        if st / 86400 == d {
            assert(d * 86400 <= st < d * 86400 + 86400) by (nonlinear_arith)
                requires
                    st / 86400 == d,
            ;
        } else {
            assert(en / 86400 == d);
            assert(d * 86400 <= en < d * 86400 + 86400) by (nonlinear_arith)
                requires
                    en / 86400 == d,
            ;
        }
        assert(false);
    }
    assert(filt =~= Seq::<(i64, i64)>::empty());
    let busy0 = day_occupation(existing, date);
    assert(busy0 =~= Seq::<(i64, i64)>::empty());
    let one = ranked.take(1);
    assert(one.drop_last() =~= Seq::<ScheduleTask>::empty());
    assert(one.last() == first);
    let lo = spec_at_time(date as int, WORK_START as int);
    let hi = spec_at_time(date as int, WORK_END as int);
    let min = first.duration_minutes * 60;
    let e = Seq::<(i64, i64)>::empty();
    assert(e.filter(|x: (i64, i64)| meets_window(x, lo as i64, hi as i64)) =~= e) by {
        reveal_with_fuel(Seq::filter, 1);
    }
    assert(sort_by_start(e) == e);
    assert(sweep(e, lo as i64, hi as i64, min) == (Seq::<FreeSlot>::empty(), lo as i64));
    let slots = spec_free_slots_of_spans(e, date, first.duration_minutes, None, WORK_START, WORK_END);
    assert(slots == seq![FreeSlot { start: lo as i64, end: hi as i64 }]);
    assert(slots[0].start < noon_of(date));
    lemma_plan_placed_prefix(ranked, busy0, date, 1);
    let empty_plan = plan(one.drop_last(), busy0, date);
    assert(empty_plan == (busy0, Seq::<ScheduledTask>::empty(), Seq::<Seq<char>>::empty()));
    assert(plan(one, busy0, date) == plan_step(empty_plan, first, date));
    assert(busy0 == e);
    let start: i64 = if first.focus {
        slots[0].start
    } else {
        (slots[0].start + BUFFER_SECONDS) as i64
    };
    let end = (start + task_length(first)) as i64;
    assert(end <= slots[0].end);
    let p1 = plan(one, busy0, date).1;
    assert(p1 == seq![ScheduledTask { task_id: first.id, title: first.title, start, end }]);
    let placed = spec_schedule(tasks, existing, date).1;
    assert(placed.take(1) == p1);
    assert(placed[0] == p1[0]);
}

/// The tasks that the schedule is planned around: no placed task shares time
/// with an existing block (one that ends after it starts) that starts or ends
/// on the target day, that is, within the 86 400 seconds from its midnight.
pub proof fn lemma_schedule_avoids_blocks_of_the_day(
    tasks: Seq<ScheduleTask>,
    existing: Seq<TimeBlock>,
    date: i64,
)
    requires
        valid_day(date as int),
        forall|i: int|
            0 <= i < tasks.len() ==> #[trigger] tasks[i].duration_minutes * 60 <= MAX_DURATION_SECONDS,
    ensures
        forall|i: int, b: int|
            0 <= i < spec_schedule(tasks, existing, date).1.len() && 0 <= b < existing.len()
                && existing[b].start_time < existing[b].end_time && ((date * 86400
                <= existing[b].start_time < date * 86400 + 86400) || (date * 86400
                <= existing[b].end_time < date * 86400 + 86400)) ==> (#[trigger] spec_schedule(
                tasks,
                existing,
                date,
            ).1[i]).end <= (#[trigger] existing[b]).start_time || spec_schedule(
                tasks,
                existing,
                date,
            ).1[i].start >= existing[b].end_time,
{
    lemma_schedule_laws(tasks, existing, date);
    let placed = spec_schedule(tasks, existing, date).1;
    assert forall|i: int, b: int|
        0 <= i < placed.len() && 0 <= b < existing.len() && existing[b].start_time
            < existing[b].end_time && ((date * 86400 <= existing[b].start_time < date * 86400
            + 86400) || (date * 86400 <= existing[b].end_time < date * 86400
            + 86400)) implies (#[trigger] placed[i]).end <= (#[trigger] existing[b]).start_time
        || placed[i].start >= existing[b].end_time by {
        let s = existing[b].start_time as int;
        let e = existing[b].end_time as int;
        let d = date as int;
        if d * 86400 <= s < d * 86400 + 86400 {
            assert(s / 86400 == d) by (nonlinear_arith)
                requires
                    d * 86400 <= s < d * 86400 + 86400,
            ;
        } else {
            assert(e / 86400 == d) by (nonlinear_arith)
                requires
                    d * 86400 <= e < d * 86400 + 86400,
            ;
        }
        assert(touches_day((existing[b].start_time, existing[b].end_time), date));
        assert(spans_apart((placed[i].start, placed[i].end), (existing[b].start_time, existing[b].end_time)));
    }
}

// ---------------------------------------------------------------------------
// Day summary.
/// Whole minutes from `start` to `end`, rounded toward zero.
pub open spec fn whole_minutes(start: i64, end: i64) -> int {
    let d = end - start;
    if d >= 0 {
        d / 60
    } else {
        -((-d) / 60)
    }
}

/// The whole minutes of the blocks, added up.
pub open spec fn minutes_total(blocks: Seq<TimeBlock>) -> int
    decreases blocks.len(),
{
    if blocks.len() == 0 {
        0
    } else {
        minutes_total(blocks.drop_last()) + whole_minutes(
            blocks.last().start_time,
            blocks.last().end_time,
        )
    }
}

/// The time the blocks take, in whole minutes per block (rounded toward
/// zero), added up in order.
pub fn total_minutes(blocks: &[TimeBlock]) -> (r: i64)
    requires
        forall|i: int|
            0 <= i < blocks@.len() ==> valid_timestamp((#[trigger] blocks@[i]).start_time as int)
                && valid_timestamp(blocks@[i].end_time as int),
        forall|k: int|
            0 <= k <= blocks@.len() ==> i64::MIN <= #[trigger] minutes_total(blocks@.take(k))
                <= i64::MAX,
    ensures
        r == minutes_total(blocks@),
{
    let n = blocks.len();
    let mut total: i64 = 0;
    let mut i: usize = 0;
    while i < n
        invariant
            n == blocks@.len(),
            i <= n,
            total == minutes_total(blocks@.take(i as int)),
            forall|j: int|
                0 <= j < blocks@.len() ==> valid_timestamp((#[trigger] blocks@[j]).start_time as int)
                    && valid_timestamp(blocks@[j].end_time as int),
            forall|k: int|
                0 <= k <= blocks@.len() ==> i64::MIN <= #[trigger] minutes_total(blocks@.take(k))
                    <= i64::MAX,
        decreases n - i,
    {
        let b = &blocks[i];
        let d = b.end_time - b.start_time;
        let m = if d >= 0 {
            d / 60
        } else {
            -((-d) / 60)
        };
        proof {
            assert(blocks@.take(i + 1).drop_last() =~= blocks@.take(i as int));
            assert(blocks@.take(i + 1).last() == *b);
            assert(minutes_total(blocks@.take(i + 1)) == total + m);
        }
        total = total + m;
        i = i + 1;
    }
    proof {
        assert(blocks@.take(n as int) =~= blocks@);
    }
    total
}

/// Whole minutes are the length in seconds divided by 60, rounded toward
/// zero; and the total of the blocks adds up: the total of two lists one
/// after the other is the sum of their totals, a single block counts its
/// whole minutes, and no blocks count nothing.
pub proof fn lemma_minutes_total_adds_up(xs: Seq<TimeBlock>, ys: Seq<TimeBlock>, b: TimeBlock)
    ensures
        minutes_total(xs + ys) == minutes_total(xs) + minutes_total(ys),
        minutes_total(seq![b]) == whole_minutes(b.start_time, b.end_time),
        minutes_total(Seq::<TimeBlock>::empty()) == 0,
        b.start_time <= b.end_time ==> whole_minutes(b.start_time, b.end_time) * 60 <= b.end_time
            - b.start_time < whole_minutes(b.start_time, b.end_time) * 60 + 60,
        b.end_time < b.start_time ==> whole_minutes(b.start_time, b.end_time) * 60 - 60 < b.end_time
            - b.start_time <= whole_minutes(b.start_time, b.end_time) * 60,
    decreases ys.len(),
{
    assert(seq![b].drop_last() =~= Seq::<TimeBlock>::empty());
    assert(seq![b].last() == b);
    assert(minutes_total(seq![b]) == minutes_total(seq![b].drop_last()) + whole_minutes(
        b.start_time,
        b.end_time,
    ));
    if ys.len() > 0 {
        lemma_minutes_total_adds_up(xs, ys.drop_last(), b);
        assert((xs + ys).drop_last() =~= xs + ys.drop_last());
        assert((xs + ys).last() == ys.last());
    } else {
        assert(xs + ys =~= xs);
    }
    let d = b.end_time - b.start_time;
    if d >= 0 {
        assert((d / 60) * 60 <= d < (d / 60) * 60 + 60) by (nonlinear_arith)
            requires
                d >= 0,
        ;
    } else {
        let m = -d;
        assert((m / 60) * 60 <= m < (m / 60) * 60 + 60) by (nonlinear_arith)
            requires
                m > 0,
        ;
    }
}

} // verus!
