//! The mathematical model of the free-space tracker: a run-length-prefix
//! encoding over a fixed array of 65535 counters, one per arena offset.
//!
//! Offset 0 is a permanent sentinel and always carries counter 0.  An
//! allocated offset carries counter 0.  A free offset `i` carries
//! `i - lo + 1`, where `lo` is the first offset of the maximal contiguous
//! free run containing `i`: counters increase by exactly 1 across a free run
//! and restart at 1 just after an allocated offset or the left edge.
//!
//! This module defines the well-formedness of a counter array, the spec-level
//! effect of every tracker operation, and the laws the operations obey.

use vstd::prelude::*;

verus! {

/// A counter array is well formed when it has one counter per arena offset,
/// the sentinel is marked allocated, and every free offset continues the run
/// of its predecessor: counter 0 (allocated), or the predecessor's counter
/// plus one.
pub open spec fn wf_counters(s: Seq<u16>) -> bool {
    &&& s.len() == 65535
    &&& s[0] == 0
    &&& forall|i: int| 1 <= i < 65535 ==> (#[trigger] s[i] == 0 || s[i] as int == s[i - 1] as int + 1)
}

/// The counter array of a fresh tracker: the sentinel allocated and offsets
/// `1..65534` one single free run.
pub open spec fn fresh_counters() -> Seq<u16> {
    Seq::new(65535, |i: int| i as u16)
}

pub proof fn lemma_fresh_wf()
    ensures
        wf_counters(fresh_counters()),
{
    assert forall|i: int| 1 <= i < 65535 implies (#[trigger] fresh_counters()[i] == 0
        || fresh_counters()[i] as int == fresh_counters()[i - 1] as int + 1) by {
        assert(fresh_counters()[i] == i as u16);
        assert(fresh_counters()[i - 1] == (i - 1) as u16);
    }
}

/// In a well-formed array no counter exceeds its own offset: a free run can
/// reach back at most to offset 1.
pub proof fn lemma_counter_le(s: Seq<u16>, i: int)
    requires
        wf_counters(s),
        0 <= i < 65535,
    ensures
        s[i] <= i,
    decreases i,
{
    if i > 0 && s[i] != 0 {
        lemma_counter_le(s, i - 1);
    }
}

/// Walking back from a free offset, counters decrease by exactly 1 for as
/// long as the counter stays positive.
pub proof fn lemma_chain_back(s: Seq<u16>, k: int, j: int)
    requires
        wf_counters(s),
        1 <= k < 65535,
        0 <= j < s[k],
    ensures
        1 <= k - j,
        s[k - j] as int == s[k] as int - j,
    decreases j,
{
    if j > 0 {
        assert(s[k] != 0);
        assert(s[k] as int == s[k - 1] as int + 1);
        assert(s[k - 1] != 0);
        assert(k - 1 >= 1) by {
            if k - 1 == 0 {
                assert(s[0] == 0);
            }
        }
        lemma_chain_back(s, k - 1, j - 1);
    }
}

/// Walking forward across free offsets, counters increase by exactly 1.
pub proof fn lemma_chain_fwd(s: Seq<u16>, a: int, b: int)
    requires
        wf_counters(s),
        1 <= a <= b < 65535,
        forall|i: int| a <= i <= b ==> s[i] != 0,
    ensures
        s[b] as int == s[a] as int + (b - a),
    decreases b - a,
{
    if b > a {
        lemma_chain_fwd(s, a, b - 1);
    }
}

/// The first offset at or after `i` whose counter is zero, or 65535 if the
/// counters stay positive to the end: the exclusive end of the free run that
/// starts at `i`.
pub open spec fn run_end(s: Seq<u16>, i: int) -> int
    decreases 65535 - i,
{
    if i >= 65535 {
        65535
    } else if s[i] == 0 {
        i
    } else {
        run_end(s, i + 1)
    }
}

pub proof fn lemma_run_end_props(s: Seq<u16>, i: int)
    requires
        0 <= i <= 65535,
    ensures
        i <= run_end(s, i) <= 65535,
        forall|j: int| i <= j < run_end(s, i) ==> s[j] != 0,
        run_end(s, i) < 65535 ==> s[run_end(s, i)] == 0,
    decreases 65535 - i,
{
    if i < 65535 && s[i] != 0 {
        lemma_run_end_props(s, i + 1);
    }
}

/// `run_end` is pinned by its characteristic properties: if everything in
/// `[i, e)` is free and `e` is the buffer end or allocated, then `e` is the
/// run end.
pub proof fn lemma_run_end_is(s: Seq<u16>, i: int, e: int)
    requires
        0 <= i <= e <= 65535,
        forall|j: int| i <= j < e ==> s[j] != 0,
        e < 65535 ==> s[e] == 0,
    ensures
        run_end(s, i) == e,
    decreases e - i,
{
    if i < e {
        lemma_run_end_is(s, i + 1, e);
    }
}

/// The first offset at or after `k` whose counter equals `size`, if any.
/// Because counters increase by exactly 1 within a free run, the first such
/// offset is `lo + size - 1` for the leftmost run of length at least `size`
/// starting at `lo`.
pub open spec fn find_from(s: Seq<u16>, size: int, k: int) -> Option<int>
    decreases 65535 - k,
{
    if k >= 65535 {
        None
    } else if s[k] == size {
        Some(k)
    } else {
        find_from(s, size, k + 1)
    }
}

pub proof fn lemma_find_from_props(s: Seq<u16>, size: int, k: int)
    requires
        0 <= k,
    ensures
        match find_from(s, size, k) {
            Some(r) => k <= r < 65535 && s[r] == size && (forall|j: int|
                k <= j < r ==> s[j] != size),
            None => forall|j: int| k <= j < 65535 ==> s[j] != size,
        },
    decreases 65535 - k,
{
    if k < 65535 && s[k] != size {
        lemma_find_from_props(s, size, k + 1);
    }
}

/// Where an allocation of `size` bytes lands: the start of the leftmost free
/// run long enough to hold it, taken from that run's front.  A request for 0
/// bytes resolves to the sentinel offset, and a request over 65534 bytes can
/// never be satisfied.
pub open spec fn find_spec(s: Seq<u16>, size: int) -> Option<int> {
    if size == 0 {
        Some(0)
    } else if size > 65534 {
        None
    } else {
        match find_from(s, size, 1) {
            Some(k) => Some(k + 1 - size),
            None => None,
        }
    }
}

/// What a successful search guarantees: the returned block lies inside the
/// arena, every offset of it is free, it sits at the front of its run, and
/// the offset just before it is the sentinel or allocated.
pub proof fn lemma_find_some_props(s: Seq<u16>, size: int, start: int)
    requires
        wf_counters(s),
        1 <= size,
        find_spec(s, size) == Some(start),
    ensures
        1 <= start,
        start + size <= 65535,
        forall|i: int| start <= i < start + size ==> s[i] != 0,
        s[start + size - 1] == size,
        s[start] == 1,
        s[start - 1] == 0,
{
    lemma_find_from_props(s, size, 1);
    let k = start + size - 1;
    assert(find_from(s, size, 1) == Some(k));
    assert(s[k] == size);
    lemma_counter_le(s, k);
    assert forall|i: int| start <= i < start + size implies s[i] != 0 by {
        lemma_chain_back(s, k, k - i);
    }
    lemma_chain_back(s, k, size - 1);
    assert(s[start] == 1);
    if start > 1 {
        assert(s[start] as int == s[start - 1] as int + 1);
    }
}

/// A window of `n` consecutive offsets starting at `a`, all free.
pub open spec fn window_free(s: Seq<u16>, a: int, n: int) -> bool {
    forall|j: int| a <= j < a + n ==> s[j] != 0
}

/// First-fit-leftmost: a successful search returns a free window, and no
/// window of the requested size that starts earlier is entirely free.
pub proof fn lemma_first_fit_leftmost(s: Seq<u16>, size: int, start: int)
    requires
        wf_counters(s),
        1 <= size,
        find_spec(s, size) == Some(start),
    ensures
        window_free(s, start, size),
        forall|a: int| 1 <= a < start ==> !window_free(s, a, size),
{
    lemma_find_some_props(s, size, start);
    lemma_find_from_props(s, size, 1);
    let k = start + size - 1;
    assert forall|a: int| 1 <= a < start implies !window_free(s, a, size) by {
        if window_free(s, a, size) {
            assert forall|i: int| a <= i <= a + size - 1 implies s[i] != 0 by {
                assert(a <= i < a + size);
            }
            lemma_chain_fwd(s, a, a + size - 1);
            let c = s[a + size - 1] as int;
            assert(c >= size);
            lemma_chain_back(s, a + size - 1, c - size);
            assert(s[a + size - 1 - (c - size)] == size);
            assert(a + size - 1 - (c - size) < k);
        }
    }
}

/// The effect of marking `[start, start + len)` allocated.  The counter at
/// the block's last offset, `m`, is its distance from its run's start; the
/// remainder of that run keeps its counters minus `m`, because its effective
/// run start has shifted right past the block, and the block itself is
/// zeroed.  Everything outside the block's run is untouched.
pub open spec fn mark_alloc_spec(s: Seq<u16>, start: int, len: int) -> Seq<u16> {
    let m = s[start + len - 1] as int;
    let e = run_end(s, start + len);
    Seq::new(65535, |i: int|
        if start <= i < start + len {
            0u16
        } else if start + len <= i < e {
            (s[i] as int - m) as u16
        } else {
            s[i]
        })
}

/// The effect of marking `[start, start + len)` free again.  The freed block
/// continues its predecessor's run (a fresh run of `1..len` when the
/// predecessor is allocated or the block sits at the left edge, since the
/// predecessor's counter is then 0), and whatever free run followed the
/// block is renumbered to continue it, merging the three into one.
pub open spec fn mark_free_spec(s: Seq<u16>, start: int, len: int) -> Seq<u16> {
    let p = s[start - 1] as int;
    let e = run_end(s, start + len);
    Seq::new(65535, |i: int|
        if start <= i < e {
            (p + 1 + (i - start)) as u16
        } else {
            s[i]
        })
}

/// Counters in the tail of a partly consumed run: from the block's last
/// counter `m` they continue `m + 1, m + 2, ...` up to the run's end.
pub proof fn lemma_tail_counters(s: Seq<u16>, start: int, len: int)
    requires
        wf_counters(s),
        1 <= start,
        1 <= len,
        start + len <= 65535,
        forall|i: int| start <= i < start + len ==> s[i] != 0,
    ensures
        forall|i: int| start + len <= i < run_end(s, start + len) ==> #[trigger] s[i] as int
            == s[start + len - 1] as int + (i - (start + len) + 1),
{
    let e = run_end(s, start + len);
    lemma_run_end_props(s, start + len);
    assert forall|i: int| start + len <= i < e implies #[trigger] s[i] as int
        == s[start + len - 1] as int + (i - (start + len) + 1) by {
        assert forall|j: int| start + len - 1 <= j <= i implies s[j] != 0 by {
            if j >= start + len {
                assert(j < e);
            }
        }
        lemma_chain_fwd(s, start + len - 1, i);
    }
}

/// Marking a free block allocated preserves well-formedness.
pub proof fn lemma_mark_alloc_wf(s: Seq<u16>, start: int, len: int)
    requires
        wf_counters(s),
        1 <= start,
        1 <= len,
        start + len <= 65535,
        forall|i: int| start <= i < start + len ==> s[i] != 0,
    ensures
        wf_counters(mark_alloc_spec(s, start, len)),
{
    let m = s[start + len - 1] as int;
    let e = run_end(s, start + len);
    let t = mark_alloc_spec(s, start, len);
    lemma_run_end_props(s, start + len);
    lemma_tail_counters(s, start, len);
    assert(t[0] == 0);
    assert forall|i: int| 1 <= i < 65535 implies (#[trigger] t[i] == 0
        || t[i] as int == t[i - 1] as int + 1) by {
        if i < start {
            assert(t[i] == s[i] && t[i - 1] == s[i - 1]);
        } else if i < start + len {
            assert(t[i] == 0);
        } else if i < e {
            assert(s[i] as int == m + (i - (start + len) + 1));
            if i == start + len {
                assert(t[i - 1] == 0);
                assert(t[i] as int == 1);
            } else {
                assert(s[i - 1] as int == m + (i - 1 - (start + len) + 1));
                assert(t[i] as int == t[i - 1] as int + 1);
            }
        } else if i == e {
            assert(t[i] == s[i] && s[i] == 0);
        } else {
            assert(t[i] == s[i] && t[i - 1] == s[i - 1]);
        }
    }
}

/// Marking an allocated block free preserves well-formedness.
pub proof fn lemma_mark_free_wf(s: Seq<u16>, start: int, len: int)
    requires
        wf_counters(s),
        1 <= start,
        1 <= len,
        start + len <= 65535,
        forall|i: int| start <= i < start + len ==> s[i] == 0,
    ensures
        wf_counters(mark_free_spec(s, start, len)),
{
    let p = s[start - 1] as int;
    let e = run_end(s, start + len);
    let t = mark_free_spec(s, start, len);
    lemma_run_end_props(s, start + len);
    lemma_counter_le(s, start - 1);
    assert(t[0] == 0);
    assert forall|i: int| 1 <= i < 65535 implies (#[trigger] t[i] == 0
        || t[i] as int == t[i - 1] as int + 1) by {
        if i < start {
            assert(t[i] == s[i] && t[i - 1] == s[i - 1]);
        } else if i == start {
            assert(t[i - 1] == s[start - 1]);
            assert(t[i] as int == p + 1);
        } else if i < e {
            assert(t[i] as int == t[i - 1] as int + 1);
        } else if i == e {
            assert(t[i] == s[i] && s[i] == 0);
        } else {
            assert(t[i] == s[i] && t[i - 1] == s[i - 1]);
        }
    }
}

/// Marking a block allocated never frees anything: every offset that was
/// allocated stays allocated.
pub proof fn lemma_mark_alloc_keeps_zero(s: Seq<u16>, start: int, len: int, i: int)
    requires
        wf_counters(s),
        1 <= start,
        1 <= len,
        start + len <= 65535,
        forall|j: int| start <= j < start + len ==> s[j] != 0,
        0 <= i < 65535,
        s[i] == 0,
    ensures
        mark_alloc_spec(s, start, len)[i] == 0,
{
    lemma_run_end_props(s, start + len);
}

/// When the search fails on a satisfiable size, no window of that size is
/// entirely free anywhere in the arena: the failure is a genuine
/// out-of-memory condition.
pub proof fn lemma_find_none_no_fit(s: Seq<u16>, size: int)
    requires
        wf_counters(s),
        1 <= size <= 65534,
        find_spec(s, size) is None,
    ensures
        forall|a: int| 1 <= a && a + size <= 65535 ==> !window_free(s, a, size),
{
    lemma_find_from_props(s, size, 1);
    assert forall|a: int| 1 <= a && a + size <= 65535 implies !window_free(s, a, size) by {
        if window_free(s, a, size) {
            assert forall|i: int| a <= i <= a + size - 1 implies s[i] != 0 by {
                assert(a <= i < a + size);
            }
            lemma_chain_fwd(s, a, a + size - 1);
            let c = s[a + size - 1] as int;
            assert(c >= size);
            lemma_chain_back(s, a + size - 1, c - size);
            assert(s[a + size - 1 - (c - size)] == size);
        }
    }
}

/// The search lands on a block exactly when the block is free, sits at the
/// front of a run, and no earlier window of the same size is entirely free.
/// In particular a resize grows in place precisely when the offsets just
/// past the resized block form such a window.
pub proof fn lemma_find_at_run_front(s: Seq<u16>, size: int, w: int)
    requires
        wf_counters(s),
        1 <= size,
        1 <= w,
        w + size <= 65535,
        s[w - 1] == 0,
        window_free(s, w, size),
        forall|a: int| 1 <= a < w ==> !window_free(s, a, size),
    ensures
        find_spec(s, size) == Some(w),
{
    assert forall|i: int| w <= i < w + size implies s[i] != 0 by {
        assert(window_free(s, w, size));
    }
    assert(s[w] != 0);
    assert(s[w] as int == s[w - 1] as int + 1);
    assert forall|i: int| w <= i <= w + size - 1 implies s[i] != 0 by {
        assert(w <= i < w + size);
    }
    lemma_chain_fwd(s, w, w + size - 1);
    assert(s[w + size - 1] == size);
    lemma_find_from_props(s, size, 1);
    match find_from(s, size, 1) {
        Some(k) => {
            assert(k <= w + size - 1);
            if k < w + size - 1 {
                lemma_counter_le(s, k);
                lemma_chain_back(s, k, size - 1);
                let a = k + 1 - size;
                assert forall|j: int| a <= j < a + size implies s[j] != 0 by {
                    lemma_chain_back(s, k, k - j);
                }
                assert(window_free(s, a, size));
                assert(1 <= a < w);
                assert(false);
            }
        },
        None => {
            assert(s[w + size - 1] != size);
            assert(false);
        },
    }
}

/// Allocating and immediately freeing the same block restores the tracker
/// exactly.  When a search for `size` bytes places a block at `start`,
/// marking `[start, start + size)` allocated and then marking the same range
/// free yields the counter array the tracker started from, so every later
/// search behaves as it would have before the allocation.
pub proof fn lemma_alloc_then_free_restores(s: Seq<u16>, size: int, start: int)
    requires
        wf_counters(s),
        1 <= size,
        find_spec(s, size) == Some(start),
    ensures
        mark_free_spec(mark_alloc_spec(s, start, size), start, size) == s,
{
    lemma_find_some_props(s, size, start);
    lemma_run_end_props(s, start + size);
    lemma_tail_counters(s, start, size);
    let m = s[start + size - 1] as int;
    let e = run_end(s, start + size);
    let s1 = mark_alloc_spec(s, start, size);
    lemma_mark_alloc_wf(s, start, size);
    assert forall|j: int| start + size <= j < e implies s1[j] != 0 by {
        assert(s[j] as int == m + (j - (start + size) + 1));
    }
    lemma_run_end_is(s1, start + size, e);
    assert(s1[start - 1] == s[start - 1] && s[start - 1] == 0);
    let t = mark_free_spec(s1, start, size);
    assert forall|i: int| start <= i < e implies s[i] as int == i - start + 1 by {
        assert forall|j: int| start <= j <= i implies s[j] != 0 by {
            if j >= start + size {
                assert(s[j] as int == m + (j - (start + size) + 1));
            }
        }
        lemma_chain_fwd(s, start, i);
        assert(s[start] == 1);
    }
    assert forall|i: int| 0 <= i < 65535 implies t[i] == s[i] by {
        if start <= i < e {
            assert(t[i] as int == 0 + 1 + (i - start));
        }
    }
    assert(t =~= s);
}

} // verus!
