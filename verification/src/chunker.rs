use vstd::prelude::*;

use crate::error::Error;
use crate::pattern_map::{
    lemma_pm_new_pattern_wf, lemma_pm_new_wf, lemma_pm_use_pattern_wf, pm_new, pm_new_pattern,
    pm_use_pattern, pm_wf, PatternMap, PatternMapView,
};
use crate::suffix_provider::{lcp_lens_of, suffix_and_lcp, suffix_order_of};

verus! {

/// The distinct values of `data` in first-occurrence order.
pub open spec fn uniques(data: Seq<usize>) -> Seq<usize>
    decreases data.len(),
{
    if data.len() == 0 {
        Seq::empty()
    } else {
        let prefix = uniques(data.drop_last());
        if prefix.contains(data.last()) {
            prefix
        } else {
            prefix.push(data.last())
        }
    }
}

/// Index of the first occurrence of `x` in `uniq`.
pub open spec fn first_position(uniq: Seq<usize>, x: usize) -> int
    decreases uniq.len(),
{
    if uniq.len() == 0 {
        0
    } else if uniq.first() == x {
        0
    } else {
        1 + first_position(uniq.drop_first(), x)
    }
}

/// The normalized sequence: each element replaced by the code of its value,
/// codes being assigned in first-occurrence order starting from 0.
pub open spec fn normalize_spec(data: Seq<usize>) -> Seq<u8> {
    Seq::new(data.len(), |i: int| first_position(uniques(data), data[i]) as u8)
}

/// Whether `v` occurs in `data`.
fn vec_contains(data: &Vec<usize>, v: usize) -> (r: bool)
    ensures
        r == data@.contains(v),
{
    let mut i: usize = 0;
    while i < data.len()
        invariant
            i <= data@.len(),
            forall|j: int| 0 <= j < i ==> data@[j] != v,
        decreases data@.len() - i,
    {
        if data[i] == v {
            return true;
        }
        i = i + 1;
    }
    false
}

/// Every element of `data` occurs in `uniques(data)`, and `uniques` never
/// holds a value that `data` does not.
proof fn lemma_uniques_contains(data: Seq<usize>)
    ensures
        forall|i: int| 0 <= i < data.len() ==> uniques(data).contains(#[trigger] data[i]),
        forall|v: usize| uniques(data).contains(v) ==> data.contains(v),
    decreases data.len(),
{
    if data.len() > 0 {
        lemma_uniques_contains(data.drop_last());
        let prefix = uniques(data.drop_last());
        let whole = uniques(data);
        assert forall|i: int| 0 <= i < data.len() implies whole.contains(#[trigger] data[i]) by {
            if i < data.len() - 1 {
                assert(data.drop_last()[i] == data[i]);
                assert(prefix.contains(data[i]));
                if !prefix.contains(data.last()) {
                    assert(whole == prefix.push(data.last()));
                    let k = choose|k: int| 0 <= k < prefix.len() && prefix[k] == data[i];
                    assert(whole[k] == data[i]);
                }
            } else {
                if prefix.contains(data.last()) {
                    let k = choose|k: int| 0 <= k < prefix.len() && prefix[k] == data.last();
                    assert(whole[k] == data[i]);
                } else {
                    assert(whole.last() == data.last());
                }
            }
        }
        assert forall|v: usize| whole.contains(v) implies data.contains(v) by {
            let k = choose|k: int| 0 <= k < whole.len() && whole[k] == v;
            if !prefix.contains(data.last()) && k == whole.len() - 1 {
                assert(data[data.len() - 1] == v);
            } else {
                assert(prefix[k] == v);
                assert(prefix.contains(v));
                assert(data.drop_last().contains(v));
                let j = choose|j: int|
                    0 <= j < data.drop_last().len() && data.drop_last()[j] == v;
                assert(data.drop_last()[j] == data[j]);
                assert(data[j] == v);
            }
        }
    }
}

/// Position of the first occurrence of `v` in `data`, for a `v` that occurs.
fn vec_first_position(data: &Vec<usize>, v: usize) -> (r: usize)
    requires
        data@.contains(v),
    ensures
        r == first_position(data@, v),
        r < data@.len(),
        data@[r as int] == v,
{
    proof {
        lemma_first_position_bounds(data@, v);
    }
    let ghost fp = first_position(data@, v);
    let n = data.len();
    let mut i: usize = 0;
    loop
        invariant
            0 <= i <= fp,
            fp == first_position(data@, v),
            fp < n == data@.len(),
            data@[fp] == v,
            forall|j: int| 0 <= j < fp ==> data@[j] != v,
        decreases fp - i,
    {
        if data[i] == v {
            proof {
                if i < fp {
                    assert(data@[i as int] != v);
                }
            }
            return i;
        }
        proof {
            if i == fp {
                assert(data@[i as int] == v);
            }
        }
        i = i + 1;
    }
}

/// `first_position` of a value that occurs points at its first occurrence.
proof fn lemma_first_position_bounds(uniq: Seq<usize>, v: usize)
    requires
        uniq.contains(v),
    ensures
        0 <= first_position(uniq, v) < uniq.len(),
        uniq[first_position(uniq, v)] == v,
        forall|j: int| 0 <= j < first_position(uniq, v) ==> uniq[j] != v,
    decreases uniq.len(),
{
    if uniq.first() == v {
    } else {
        let rest = uniq.drop_first();
        assert(rest.contains(v)) by {
            let k = choose|k: int| 0 <= k < uniq.len() && uniq[k] == v;
            assert(rest[k - 1] == v);
        }
        lemma_first_position_bounds(rest, v);
        assert forall|j: int| 0 <= j < first_position(uniq, v) implies uniq[j] != v by {
            if j > 0 {
                assert(rest[j - 1] == uniq[j]);
            }
        }
    }
}

/// Map `data` onto small integer codes assigned in first-occurrence order:
/// the first distinct value seen becomes code 0, the next new value code 1,
/// and so on. Fails with `AlphabetOverflow` when `data` holds more than 256
/// distinct values.
pub fn normalize(data: &Vec<usize>) -> (r: Result<Vec<u8>, Error>)
    ensures
        match r {
            Ok(codes) => uniques(data@).len() <= 256 && codes@ == normalize_spec(data@),
            Err(e) => e == Error::AlphabetOverflow && uniques(data@).len() > 256,
        },
{
    let mut unique: Vec<usize> = Vec::new();
    let mut i: usize = 0;
    while i < data.len()
        invariant
            i <= data@.len(),
            unique@ == uniques(data@.take(i as int)),
        decreases data@.len() - i,
    {
        proof {
            assert(data@.take(i + 1).drop_last() =~= data@.take(i as int));
            assert(data@.take(i + 1).last() == data@[i as int]);
        }
        if !vec_contains(&unique, data[i]) {
            unique.push(data[i]);
        }
        i = i + 1;
    }
    proof {
        assert(data@.take(data@.len() as int) =~= data@);
    }

    if unique.len() > 256 {
        return Err(Error::AlphabetOverflow);
    }

    let ghost uq = uniques(data@);
    proof {
        lemma_uniques_contains(data@);
    }
    let mut ret: Vec<u8> = Vec::new();
    let mut i: usize = 0;
    while i < data.len()
        invariant
            i <= data@.len(),
            unique@ == uq,
            uq == uniques(data@),
            unique@.len() <= 256,
            forall|j: int| 0 <= j < data@.len() ==> uq.contains(#[trigger] data@[j]),
            ret@.len() == i,
            forall|j: int| 0 <= j < i ==> ret@[j] == first_position(uq, data@[j]) as u8,
        decreases data@.len() - i,
    {
        let pos = vec_first_position(&unique, data[i]);
        ret.push(pos as u8);
        i = i + 1;
    }
    proof {
        assert(ret@ =~= normalize_spec(data@));
    }
    Ok(ret)
}


/// One look-ahead scan of the segment processor: starting at rank `j`, an
/// occurrence of pattern `p` is recorded at every rank whose LCP value is at
/// least `len`, and every rank beyond the first whose LCP value equals `len`
/// exactly is marked to be skipped by the outer scan; the scan stops before
/// the first rank with a smaller LCP value.
pub open spec fn look_ahead(
    m: PatternMapView,
    indices: Seq<u32>,
    lcp: Seq<u32>,
    j: int,
    len: u32,
    p: u32,
    skip: Seq<int>,
) -> (PatternMapView, Seq<int>)
    decreases lcp.len() - j,
{
    if j < 0 || j >= lcp.len() || lcp[j] < len {
        (m, skip)
    } else {
        let skip2 = if lcp[j] == len {
            skip.push(j)
        } else {
            skip
        };
        look_ahead(pm_use_pattern(m, indices[j] as int, p), indices, lcp, j + 1, len, p, skip2)
    }
}

/// One look-back scan of the segment processor: starting at rank `j` and
/// moving down, an occurrence of pattern `p` is recorded at every rank whose
/// LCP value is at least `len`; the result also carries the boundary rank,
/// the first one below with a smaller LCP value, or 0 when there is none.
pub open spec fn look_back(
    m: PatternMapView,
    indices: Seq<u32>,
    lcp: Seq<u32>,
    j: int,
    len: u32,
    p: u32,
) -> (PatternMapView, int)
    decreases j + 1,
{
    if j < 0 {
        (m, 0)
    } else if lcp[j] < len {
        (m, j)
    } else {
        look_back(pm_use_pattern(m, indices[j] as int, p), indices, lcp, j - 1, len, p)
    }
}

/// The outer scan of the segment processor over ranks `i .. lcp.len()`. Each
/// rank not marked as skipped registers a new pattern whose length is its LCP
/// value, records the occurrences found by the look-ahead and look-back
/// scans, and records one more occurrence at the look-back boundary.
pub open spec fn add_patterns_loop(
    m: PatternMapView,
    indices: Seq<u32>,
    lcp: Seq<u32>,
    i: int,
    skip: Seq<int>,
) -> PatternMapView
    decreases lcp.len() - i,
{
    if i < 1 || i >= lcp.len() {
        m
    } else if skip.contains(i) {
        add_patterns_loop(m, indices, lcp, i + 1, skip)
    } else {
        let len = lcp[i];
        let p = m.patterns.len() as u32;
        let m1 = pm_new_pattern(m, len);
        let ahead = look_ahead(m1, indices, lcp, i, len, p, skip);
        let back = look_back(ahead.0, indices, lcp, i - 1, len, p);
        let m4 = pm_use_pattern(back.0, indices[back.1] as int, p);
        add_patterns_loop(m4, indices, lcp, i + 1, ahead.1)
    }
}

/// What the segment processor adds to `m` for one segment of suffix ranks.
pub open spec fn add_patterns_spec(m: PatternMapView, indices: Seq<u32>, lcp: Seq<u32>) -> PatternMapView {
    add_patterns_loop(m, indices, lcp, 1, Seq::empty())
}

/// A sequence of positions and a sequence of casts of the same positions
/// agree on membership.
proof fn lemma_cast_seq_contains(s: Seq<usize>, t: Seq<int>, x: usize)
    requires
        t.len() == s.len(),
        forall|k: int| 0 <= k < s.len() ==> t[k] == s[k] as int,
    ensures
        s.contains(x) <==> t.contains(x as int),
{
    if s.contains(x) {
        let k = choose|k: int| 0 <= k < s.len() && s[k] == x;
        assert(t[k] == x as int);
    }
    if t.contains(x as int) {
        let k = choose|k: int| 0 <= k < t.len() && t[k] == x as int;
        assert(s[k] as int == x as int);
        assert(s[k] == x);
    }
}

/// Process one segment of the suffix order. `indices[0..m)` is a contiguous
/// slice of the suffix order and `lcp[0..m)` the aligned LCP slice; rank 0 is
/// the segment boundary and real processing starts at rank 1. For each rank
/// not already covered by an equal-length pattern found earlier, a new
/// pattern is registered whose length is the rank's LCP value, and an
/// occurrence of it is recorded at every suffix position of the surrounding
/// run of ranks with at least that LCP value, plus the position just beyond
/// the run's lower boundary.
pub fn add_patterns(pattern_map: &mut PatternMap, indices: &Vec<u32>, lcp: &Vec<u32>)
    requires
        indices@.len() == lcp@.len(),
        forall|j: int|
            0 <= j < indices@.len() ==> (indices@[j] as int) < old(pattern_map)@.order.len(),
        old(pattern_map)@.patterns.len() + lcp@.len() <= u32::MAX,
    ensures
        final(pattern_map)@ == add_patterns_spec(old(pattern_map)@, indices@, lcp@),
        final(pattern_map)@.order.len() == old(pattern_map)@.order.len(),
        old(pattern_map)@.patterns.len() <= final(pattern_map)@.patterns.len(),
        lcp@.len() > 0 ==> final(pattern_map)@.patterns.len() <= old(
            pattern_map,
        )@.patterns.len() + lcp@.len() - 1,
        lcp@.len() == 0 ==> final(pattern_map)@ == old(pattern_map)@,
{
    let ghost m0 = pattern_map@;
    let ghost goal = add_patterns_spec(m0, indices@, lcp@);
    let mut skip_indices: Vec<usize> = Vec::new();
    let ghost gskip: Seq<int> = Seq::empty();
    let n = lcp.len();
    let mut i: usize = 1;
    while i < n
        invariant
            1 <= i,
            i <= n || i == 1,
            n == lcp@.len(),
            n == indices@.len(),
            forall|j: int| 0 <= j < indices@.len() ==> (indices@[j] as int) < m0.order.len(),
            m0.patterns.len() + n <= u32::MAX,
            gskip.len() == skip_indices@.len(),
            forall|k: int| 0 <= k < gskip.len() ==> gskip[k] == skip_indices@[k] as int,
            add_patterns_loop(pattern_map@, indices@, lcp@, i as int, gskip) == goal,
            pattern_map@.order.len() == m0.order.len(),
            m0.patterns.len() <= pattern_map@.patterns.len(),
            pattern_map@.patterns.len() <= m0.patterns.len() + i - 1,
        decreases n - i,
    {
        let ghost m_it = pattern_map@;
        let ghost skip_it = gskip;
        let found = vec_contains(&skip_indices, i);
        proof {
            lemma_cast_seq_contains(skip_indices@, gskip, i);
        }
        if found {
            i = i + 1;
            continue;
        }

        let len_v = lcp[i];
        let p = pattern_map.new_pattern(len_v);
        let ghost m1 = pattern_map@;

        // Look ahead
        let ghost ahead_goal = look_ahead(m1, indices@, lcp@, i as int, len_v, p, skip_it);
        let mut j = i;
        while j < n && lcp[j] >= len_v
            invariant
                i <= j <= n,
                n == lcp@.len(),
                n == indices@.len(),
                forall|jj: int| 0 <= jj < indices@.len() ==> (indices@[jj] as int) < m0.order.len(),
                gskip.len() == skip_indices@.len(),
                forall|k: int| 0 <= k < gskip.len() ==> gskip[k] == skip_indices@[k] as int,
                pattern_map@.order.len() == m0.order.len(),
                pattern_map@.patterns == m1.patterns,
                look_ahead(pattern_map@, indices@, lcp@, j as int, len_v, p, gskip) == ahead_goal,
            decreases n - j,
        {
            if lcp[j] == len_v {
                skip_indices.push(j);
                proof {
                    gskip = gskip.push(j as int);
                }
            }
            pattern_map.use_pattern(indices[j], p);
            j = j + 1;
        }
        proof {
            assert((pattern_map@, gskip) == ahead_goal);
        }

        // Look back
        let ghost m2 = pattern_map@;
        let ghost back_goal = look_back(m2, indices@, lcp@, i as int - 1, len_v, p);
        let mut j2 = i;
        while j2 > 0 && lcp[j2 - 1] >= len_v
            invariant
                0 <= j2 <= i,
                i < n,
                n == lcp@.len(),
                n == indices@.len(),
                forall|jj: int| 0 <= jj < indices@.len() ==> (indices@[jj] as int) < m0.order.len(),
                pattern_map@.order.len() == m0.order.len(),
                pattern_map@.patterns == m1.patterns,
                look_back(pattern_map@, indices@, lcp@, j2 as int - 1, len_v, p) == back_goal,
            decreases j2,
        {
            pattern_map.use_pattern(indices[j2 - 1], p);
            j2 = j2 - 1;
        }
        let k = if j2 > 0 {
            j2 - 1
        } else {
            0
        };
        proof {
            assert((pattern_map@, k as int) == back_goal);
        }

        // Add the index at the look-back boundary
        pattern_map.use_pattern(indices[k], p);

        proof {
            assert(add_patterns_loop(m_it, indices@, lcp@, i as int, skip_it) == add_patterns_loop(
                pattern_map@,
                indices@,
                lcp@,
                i as int + 1,
                gskip,
            ));
        }
        i = i + 1;
    }
}


/// First rank at or after `i` whose LCP value exceeds 1, or the length of
/// `lcp` when there is none: where the next segment of shared structure
/// begins.
pub open spec fn seg_start(lcp: Seq<u32>, i: int) -> int
    decreases lcp.len() - i,
{
    if i < 0 || i >= lcp.len() {
        lcp.len() as int
    } else if lcp[i] > 1 {
        i
    } else {
        seg_start(lcp, i + 1)
    }
}

/// First rank at or after `i` whose LCP value is at most 1, or the length of
/// `lcp` when there is none: where the current segment of shared structure
/// ends.
pub open spec fn seg_end(lcp: Seq<u32>, i: int) -> int
    decreases lcp.len() - i,
{
    if i < 0 || i >= lcp.len() {
        lcp.len() as int
    } else if lcp[i] <= 1 {
        i
    } else {
        seg_end(lcp, i + 1)
    }
}

/// Where `seg_start` points: at or after `i`, at most the length of `lcp`,
/// beyond only ranks with LCP at most 1, and itself a rank with LCP above 1
/// when within range.
pub proof fn lemma_seg_start_bounds(lcp: Seq<u32>, i: int)
    requires
        0 <= i <= lcp.len(),
    ensures
        i <= seg_start(lcp, i) <= lcp.len(),
        forall|j: int| i <= j < seg_start(lcp, i) ==> lcp[j] <= 1,
        seg_start(lcp, i) < lcp.len() ==> lcp[seg_start(lcp, i)] > 1,
    decreases lcp.len() - i,
{
    if i < lcp.len() && lcp[i] <= 1 {
        lemma_seg_start_bounds(lcp, i + 1);
    }
}

/// Where `seg_end` points: at or after `i`, at most the length of `lcp`,
/// beyond only ranks with LCP above 1, and itself a rank with LCP at most 1
/// when within range.
pub proof fn lemma_seg_end_bounds(lcp: Seq<u32>, i: int)
    requires
        0 <= i <= lcp.len(),
    ensures
        i <= seg_end(lcp, i) <= lcp.len(),
        forall|j: int| i <= j < seg_end(lcp, i) ==> lcp[j] > 1,
        seg_end(lcp, i) < lcp.len() ==> lcp[seg_end(lcp, i)] <= 1,
    decreases lcp.len() - i,
{
    if i < lcp.len() && lcp[i] > 1 {
        lemma_seg_end_bounds(lcp, i + 1);
    }
}

/// The extractor's scan from rank `i` on: each maximal run of ranks whose LCP
/// value exceeds 1, extended one rank down to its boundary, is handed to the
/// segment processor, and the scan resumes where the run ended.
pub open spec fn patternize_loop(
    m: PatternMapView,
    indices: Seq<u32>,
    lcp: Seq<u32>,
    i: int,
) -> PatternMapView
    decreases lcp.len() - i + 1,
    via patternize_loop_decreases
{
    if i < 1 {
        m
    } else {
        let start = seg_start(lcp, i);
        if start >= lcp.len() {
            m
        } else {
            let end = seg_end(lcp, start + 1);
            let m2 = add_patterns_spec(
                m,
                indices.subrange(start - 1, end),
                lcp.subrange(start - 1, end),
            );
            patternize_loop(m2, indices, lcp, end)
        }
    }
}

#[via_fn]
proof fn patternize_loop_decreases(m: PatternMapView, indices: Seq<u32>, lcp: Seq<u32>, i: int) {
    if 1 <= i && i <= lcp.len() {
        lemma_seg_start_bounds(lcp, i);
        if seg_start(lcp, i) < lcp.len() {
            lemma_seg_end_bounds(lcp, seg_start(lcp, i) + 1);
        }
    }
}

/// The pattern map that extraction builds from a suffix order and its LCP
/// array.
pub open spec fn patternize_spec(indices: Seq<u32>, lcp: Seq<u32>) -> PatternMapView {
    patternize_loop(pm_new(lcp.len()), indices, lcp, 1)
}

/// First index at or after `from` whose value exceeds 1, or the length of
/// `lcp`.
fn find_above(lcp: &Vec<u32>, from: usize) -> (r: usize)
    requires
        from <= lcp@.len(),
    ensures
        r as int == seg_start(lcp@, from as int),
        from <= r <= lcp@.len(),
{
    proof {
        lemma_seg_start_bounds(lcp@, from as int);
    }
    let n = lcp.len();
    let mut i = from;
    while i < n && lcp[i] <= 1
        invariant
            from <= i <= n,
            n == lcp@.len(),
            seg_start(lcp@, i as int) == seg_start(lcp@, from as int),
        decreases n - i,
    {
        i = i + 1;
    }
    i
}

/// First index at or after `from` whose value is at most 1, or the length of
/// `lcp`.
fn find_at_most(lcp: &Vec<u32>, from: usize) -> (r: usize)
    requires
        from <= lcp@.len(),
    ensures
        r as int == seg_end(lcp@, from as int),
        from <= r <= lcp@.len(),
{
    proof {
        lemma_seg_end_bounds(lcp@, from as int);
    }
    let n = lcp.len();
    let mut i = from;
    while i < n && lcp[i] > 1
        invariant
            from <= i <= n,
            n == lcp@.len(),
            seg_end(lcp@, i as int) == seg_end(lcp@, from as int),
        decreases n - i,
    {
        i = i + 1;
    }
    i
}

/// The elements of `v` from `from` up to `to`, as a fresh vector.
fn copy_range(v: &Vec<u32>, from: usize, to: usize) -> (r: Vec<u32>)
    requires
        from <= to <= v@.len(),
    ensures
        r@ == v@.subrange(from as int, to as int),
{
    let mut r: Vec<u32> = Vec::new();
    let mut k = from;
    while k < to
        invariant
            from <= k <= to <= v@.len(),
            r@ == v@.subrange(from as int, k as int),
        decreases to - k,
    {
        r.push(v[k]);
        k = k + 1;
        proof {
            assert(r@ =~= v@.subrange(from as int, k as int));
        }
    }
    r
}

/// Convert a suffix order and its aligned LCP array into a pattern map. The
/// LCP array is scanned left to right for maximal runs of ranks sharing a
/// prefix of length at least 2; each run, extended one rank down to its
/// boundary, is handed to the segment processor `add_patterns`. Pattern ids
/// increase monotonically across segments.
pub fn patternize(indices: &Vec<u32>, lcp: &Vec<u32>) -> (r: PatternMap)
    requires
        indices@.len() == lcp@.len(),
        lcp@.len() <= u32::MAX,
        forall|j: int| 0 <= j < indices@.len() ==> (indices@[j] as int) < lcp@.len(),
    ensures
        r@ == patternize_spec(indices@, lcp@),
        r@.order.len() == lcp@.len(),
{
    let n = lcp.len();
    let ghost goal = patternize_spec(indices@, lcp@);
    let mut pattern_map = PatternMap::new(n);
    if n == 0 {
        proof {
            assert(patternize_loop(pattern_map@, indices@, lcp@, 1) == pattern_map@);
        }
        return pattern_map;
    }
    let mut i: usize = 1;
    loop
        invariant
            1 <= i <= n,
            n == lcp@.len(),
            n == indices@.len(),
            n <= u32::MAX,
            forall|j: int| 0 <= j < indices@.len() ==> (indices@[j] as int) < n,
            patternize_loop(pattern_map@, indices@, lcp@, i as int) == goal,
            pattern_map@.order.len() == n,
            pattern_map@.patterns.len() <= i - 1,
        ensures
            pattern_map@ == goal,
            pattern_map@.order.len() == n,
        decreases n - i + 1,
    {
        let start = find_above(lcp, i);
        proof {
            lemma_seg_start_bounds(lcp@, i as int);
        }
        if start >= n {
            proof {
                assert(patternize_loop(pattern_map@, indices@, lcp@, i as int) == pattern_map@);
            }
            break;
        }
        let end = find_at_most(lcp, start + 1);
        proof {
            lemma_seg_end_bounds(lcp@, start as int + 1);
        }
        let sub_idx = copy_range(indices, start - 1, end);
        let sub_lcp = copy_range(lcp, start - 1, end);
        let ghost m_it = pattern_map@;
        add_patterns(&mut pattern_map, &sub_idx, &sub_lcp);
        proof {
            assert(patternize_loop(m_it, indices@, lcp@, i as int) == patternize_loop(
                pattern_map@,
                indices@,
                lcp@,
                end as int,
            ));
        }
        i = end;
    }
    pattern_map
}


/// Normalization keeps the input's length, and every code lies below the
/// number of distinct values of the input.
pub proof fn lemma_normalize_codes_in_range(data: Seq<usize>)
    requires
        uniques(data).len() <= 256,
    ensures
        normalize_spec(data).len() == data.len(),
        forall|i: int|
            0 <= i < data.len() ==> (normalize_spec(data)[i] as int) < uniques(data).len(),
{
    lemma_uniques_contains(data);
    assert forall|i: int|
        0 <= i < data.len() implies (normalize_spec(data)[i] as int) < uniques(data).len() by {
        lemma_first_position_bounds(uniques(data), data[i]);
    }
}

/// Normalization is deterministic: equal inputs are assigned equal code
/// sequences.
pub proof fn lemma_normalize_deterministic(a: Seq<usize>, b: Seq<usize>)
    requires
        a == b,
    ensures
        normalize_spec(a) == normalize_spec(b),
{
}

/// Extraction is deterministic: two pattern maps built from the same suffix
/// order and LCP array hold the same pattern lengths and the same occurrence
/// lists.
pub proof fn lemma_patternize_deterministic(
    indices: Seq<u32>,
    lcp: Seq<u32>,
    m1: PatternMapView,
    m2: PatternMapView,
)
    requires
        m1 == patternize_spec(indices, lcp),
        m2 == patternize_spec(indices, lcp),
    ensures
        m1.patterns == m2.patterns,
        m1.order == m2.order,
{
}

/// Discover every repeated pattern of the normalized sequence `codes`: its
/// suffix order and LCP array are obtained from the suffix/LCP provider and
/// handed to the extractor. Succeeds on every all-ASCII code sequence, in
/// particular whenever fewer than 129 codes are in use; fails with
/// `UnsupportedAlphabet` when the provider cannot take the codes.
pub fn discover_patterns(codes: &Vec<u8>) -> (r: Result<PatternMap, Error>)
    requires
        codes@.len() <= u32::MAX,
    ensures
        (forall|i: int| 0 <= i < codes@.len() ==> codes@[i] < 128) ==> r is Ok,
        r matches Ok(m) ==> {
            &&& m@ == patternize_spec(suffix_order_of(codes@), lcp_lens_of(codes@))
            &&& m@.order.len() == codes@.len()
        },
        r matches Err(e) ==> e == Error::UnsupportedAlphabet,
{
    match suffix_and_lcp(codes) {
        Some(pair) => {
            let (order, lcp) = pair;
            Ok(patternize(&order, &lcp))
        },
        None => Err(Error::UnsupportedAlphabet),
    }
}

/// Normalize `data` and discover its repeated patterns end to end. Fails with
/// `AlphabetOverflow` exactly when `data` holds more than 256 distinct
/// values, succeeds whenever it holds at most 128, and otherwise fails with
/// `UnsupportedAlphabet` when the suffix/LCP provider cannot take the
/// normalized codes.
pub fn chunk(data: &Vec<usize>) -> (r: Result<PatternMap, Error>)
    requires
        data@.len() <= u32::MAX,
    ensures
        r matches Ok(m) ==> {
            &&& uniques(data@).len() <= 256
            &&& m@ == patternize_spec(
                suffix_order_of(normalize_spec(data@)),
                lcp_lens_of(normalize_spec(data@)),
            )
            &&& m@.order.len() == data@.len()
        },
        uniques(data@).len() > 256 ==> r == Err::<PatternMap, Error>(Error::AlphabetOverflow),
        uniques(data@).len() <= 128 ==> r is Ok,
        r matches Err(e) ==> {
            &&& (e == Error::AlphabetOverflow || e == Error::UnsupportedAlphabet)
            &&& uniques(data@).len() > 128
        },
{
    let codes = match normalize(data) {
        Ok(c) => c,
        Err(_) => {
            return Err(Error::AlphabetOverflow);
        },
    };
    proof {
        lemma_normalize_codes_in_range(data@);
    }
    discover_patterns(&codes)
}


/// The look-ahead scan records occurrences only: the pattern registry is
/// untouched.
proof fn lemma_look_ahead_patterns(
    m: PatternMapView,
    indices: Seq<u32>,
    lcp: Seq<u32>,
    j: int,
    len: u32,
    p: u32,
    skip: Seq<int>,
)
    ensures
        look_ahead(m, indices, lcp, j, len, p, skip).0.patterns == m.patterns,
    decreases lcp.len() - j,
{
    if !(j < 0 || j >= lcp.len() || lcp[j] < len) {
        let skip2 = if lcp[j] == len {
            skip.push(j)
        } else {
            skip
        };
        lemma_look_ahead_patterns(
            pm_use_pattern(m, indices[j] as int, p),
            indices,
            lcp,
            j + 1,
            len,
            p,
            skip2,
        );
    }
}

/// The look-back scan records occurrences only: the pattern registry is
/// untouched.
proof fn lemma_look_back_patterns(
    m: PatternMapView,
    indices: Seq<u32>,
    lcp: Seq<u32>,
    j: int,
    len: u32,
    p: u32,
)
    ensures
        look_back(m, indices, lcp, j, len, p).0.patterns == m.patterns,
    decreases j + 1,
{
    if j >= 0 && lcp[j] >= len {
        lemma_look_back_patterns(pm_use_pattern(m, indices[j] as int, p), indices, lcp, j - 1, len, p);
    }
}

/// When every LCP value from rank `i` on exceeds 1 and every length already
/// registered is at least 2, every length the outer scan registers is at
/// least 2 as well.
proof fn lemma_add_patterns_loop_lengths(
    m: PatternMapView,
    indices: Seq<u32>,
    lcp: Seq<u32>,
    i: int,
    skip: Seq<int>,
)
    requires
        forall|j: int| i <= j < lcp.len() && j >= 1 ==> lcp[j] >= 2,
        forall|q: int| 0 <= q < m.patterns.len() ==> m.patterns[q] >= 2,
    ensures
        forall|q: int|
            0 <= q < add_patterns_loop(m, indices, lcp, i, skip).patterns.len()
                ==> add_patterns_loop(m, indices, lcp, i, skip).patterns[q] >= 2,
    decreases lcp.len() - i,
{
    if i < 1 || i >= lcp.len() {
    } else if skip.contains(i) {
        lemma_add_patterns_loop_lengths(m, indices, lcp, i + 1, skip);
        assert(add_patterns_loop(m, indices, lcp, i, skip) == add_patterns_loop(
            m,
            indices,
            lcp,
            i + 1,
            skip,
        ));
    } else {
        let len = lcp[i];
        let p = m.patterns.len() as u32;
        let m1 = pm_new_pattern(m, len);
        let ahead = look_ahead(m1, indices, lcp, i, len, p, skip);
        let back = look_back(ahead.0, indices, lcp, i - 1, len, p);
        let m4 = pm_use_pattern(back.0, indices[back.1] as int, p);
        assert(len >= 2);
        assert(forall|q: int| 0 <= q < m1.patterns.len() ==> m1.patterns[q] >= 2);
        lemma_look_ahead_patterns(m1, indices, lcp, i, len, p, skip);
        lemma_look_back_patterns(ahead.0, indices, lcp, i - 1, len, p);
        assert(m4.patterns == m1.patterns);
        lemma_add_patterns_loop_lengths(m4, indices, lcp, i + 1, ahead.1);
        assert(add_patterns_loop(m, indices, lcp, i, skip) == add_patterns_loop(
            m4,
            indices,
            lcp,
            i + 1,
            ahead.1,
        ));
    }
}

/// The extractor only ever registers pattern lengths of at least 2.
proof fn lemma_patternize_loop_lengths(m: PatternMapView, indices: Seq<u32>, lcp: Seq<u32>, i: int)
    requires
        forall|q: int| 0 <= q < m.patterns.len() ==> m.patterns[q] >= 2,
    ensures
        forall|q: int|
            0 <= q < patternize_loop(m, indices, lcp, i).patterns.len() ==> patternize_loop(
                m,
                indices,
                lcp,
                i,
            ).patterns[q] >= 2,
    decreases lcp.len() - i + 1,
{
    if i >= 1 {
        if i <= lcp.len() {
            lemma_seg_start_bounds(lcp, i);
        }
        let start = seg_start(lcp, i);
        if start < lcp.len() {
            lemma_seg_end_bounds(lcp, start + 1);
            let end = seg_end(lcp, start + 1);
            let sub_lcp = lcp.subrange(start - 1, end);
            let sub_idx = indices.subrange(start - 1, end);
            assert(lcp[start] > 1);
            assert forall|j: int| 1 <= j < sub_lcp.len() implies sub_lcp[j] >= 2 by {
                assert(sub_lcp[j] == lcp[start - 1 + j]);
            }
            let m2 = add_patterns_spec(m, sub_idx, sub_lcp);
            lemma_add_patterns_loop_lengths(m, sub_idx, sub_lcp, 1, Seq::empty());
            lemma_patternize_loop_lengths(m2, indices, lcp, end);
            assert(patternize_loop(m, indices, lcp, i) == patternize_loop(m2, indices, lcp, end));
        } else {
            assert(patternize_loop(m, indices, lcp, i) == m);
        }
    } else {
        assert(patternize_loop(m, indices, lcp, i) == m);
    }
}

/// Every pattern that extraction records has length at least 2: no pattern
/// map built by `patternize` holds a length-0 or length-1 pattern.
pub proof fn lemma_patternize_lengths_at_least_two(indices: Seq<u32>, lcp: Seq<u32>)
    ensures
        forall|q: int|
            0 <= q < patternize_spec(indices, lcp).patterns.len() ==> patternize_spec(
                indices,
                lcp,
            ).patterns[q] >= 2,
{
    lemma_patternize_loop_lengths(pm_new(lcp.len()), indices, lcp, 1);
}


/// The look-ahead scan keeps a well-formed map well formed and its position
/// count unchanged, as long as the pattern id it records is registered and
/// the segment's suffix positions are in range.
proof fn lemma_look_ahead_wf(
    m: PatternMapView,
    indices: Seq<u32>,
    lcp: Seq<u32>,
    j: int,
    len: u32,
    p: u32,
    skip: Seq<int>,
)
    requires
        pm_wf(m),
        (p as int) < m.patterns.len(),
        indices.len() == lcp.len(),
        forall|t: int| 0 <= t < indices.len() ==> (indices[t] as int) < m.order.len(),
    ensures
        pm_wf(look_ahead(m, indices, lcp, j, len, p, skip).0),
        look_ahead(m, indices, lcp, j, len, p, skip).0.order.len() == m.order.len(),
    decreases lcp.len() - j,
{
    if !(j < 0 || j >= lcp.len() || lcp[j] < len) {
        let skip2 = if lcp[j] == len {
            skip.push(j)
        } else {
            skip
        };
        let m2 = pm_use_pattern(m, indices[j] as int, p);
        lemma_pm_use_pattern_wf(m, indices[j] as int, p);
        lemma_look_ahead_wf(m2, indices, lcp, j + 1, len, p, skip2);
    }
}

/// The look-back scan keeps a well-formed map well formed and its position
/// count unchanged, and its boundary rank lies between 0 and the rank it
/// started from.
proof fn lemma_look_back_wf(
    m: PatternMapView,
    indices: Seq<u32>,
    lcp: Seq<u32>,
    j: int,
    len: u32,
    p: u32,
)
    requires
        pm_wf(m),
        (p as int) < m.patterns.len(),
        indices.len() == lcp.len(),
        j < lcp.len(),
        forall|t: int| 0 <= t < indices.len() ==> (indices[t] as int) < m.order.len(),
    ensures
        pm_wf(look_back(m, indices, lcp, j, len, p).0),
        look_back(m, indices, lcp, j, len, p).0.order.len() == m.order.len(),
        0 <= look_back(m, indices, lcp, j, len, p).1,
        look_back(m, indices, lcp, j, len, p).1 <= if j >= 0 {
            j
        } else {
            0
        },
    decreases j + 1,
{
    if j >= 0 && lcp[j] >= len {
        let m2 = pm_use_pattern(m, indices[j] as int, p);
        lemma_pm_use_pattern_wf(m, indices[j] as int, p);
        lemma_look_back_wf(m2, indices, lcp, j - 1, len, p);
    }
}

/// The outer scan of the segment processor keeps a well-formed map well
/// formed: every id it records belongs to a pattern registered before or
/// during the scan.
proof fn lemma_add_patterns_loop_wf(
    m: PatternMapView,
    indices: Seq<u32>,
    lcp: Seq<u32>,
    i: int,
    skip: Seq<int>,
)
    requires
        pm_wf(m),
        indices.len() == lcp.len(),
        forall|t: int| 0 <= t < indices.len() ==> (indices[t] as int) < m.order.len(),
        i < lcp.len() ==> m.patterns.len() + lcp.len() - i <= u32::MAX,
    ensures
        pm_wf(add_patterns_loop(m, indices, lcp, i, skip)),
        add_patterns_loop(m, indices, lcp, i, skip).order.len() == m.order.len(),
        add_patterns_loop(m, indices, lcp, i, skip).patterns.len() <= m.patterns.len() + (
        if 1 <= i < lcp.len() {
            lcp.len() - i
        } else {
            0
        }),
    decreases lcp.len() - i,
{
    if i < 1 || i >= lcp.len() {
    } else if skip.contains(i) {
        lemma_add_patterns_loop_wf(m, indices, lcp, i + 1, skip);
    } else {
        let len = lcp[i];
        let p = m.patterns.len() as u32;
        let m1 = pm_new_pattern(m, len);
        let ahead = look_ahead(m1, indices, lcp, i, len, p, skip);
        let back = look_back(ahead.0, indices, lcp, i - 1, len, p);
        let m4 = pm_use_pattern(back.0, indices[back.1] as int, p);
        lemma_pm_new_pattern_wf(m, len);
        lemma_look_ahead_wf(m1, indices, lcp, i, len, p, skip);
        lemma_look_ahead_patterns(m1, indices, lcp, i, len, p, skip);
        lemma_look_back_wf(ahead.0, indices, lcp, i - 1, len, p);
        lemma_look_back_patterns(ahead.0, indices, lcp, i - 1, len, p);
        assert((indices[back.1] as int) < back.0.order.len());
        lemma_pm_use_pattern_wf(back.0, indices[back.1] as int, p);
        lemma_add_patterns_loop_wf(m4, indices, lcp, i + 1, ahead.1);
    }
}

/// The extractor keeps a well-formed map well formed across segments.
proof fn lemma_patternize_loop_wf(m: PatternMapView, indices: Seq<u32>, lcp: Seq<u32>, i: int)
    requires
        pm_wf(m),
        indices.len() == lcp.len(),
        forall|t: int| 0 <= t < indices.len() ==> (indices[t] as int) < m.order.len(),
        1 <= i,
        m.patterns.len() + lcp.len() - i <= u32::MAX,
    ensures
        pm_wf(patternize_loop(m, indices, lcp, i)),
        patternize_loop(m, indices, lcp, i).order.len() == m.order.len(),
    decreases lcp.len() - i + 1,
{
    if i <= lcp.len() {
        lemma_seg_start_bounds(lcp, i);
    }
    let start = seg_start(lcp, i);
    if start < lcp.len() {
        lemma_seg_end_bounds(lcp, start + 1);
        let end = seg_end(lcp, start + 1);
        let sub_idx = indices.subrange(start - 1, end);
        let sub_lcp = lcp.subrange(start - 1, end);
        let m2 = add_patterns_spec(m, sub_idx, sub_lcp);
        assert forall|t: int| 0 <= t < sub_idx.len() implies (sub_idx[t] as int)
            < m.order.len() by {
            assert(sub_idx[t] == indices[start - 1 + t]);
        }
        lemma_add_patterns_loop_wf(m, sub_idx, sub_lcp, 1, Seq::empty());
        lemma_patternize_loop_wf(m2, indices, lcp, end);
        assert(patternize_loop(m, indices, lcp, i) == patternize_loop(m2, indices, lcp, end));
    } else {
        assert(patternize_loop(m, indices, lcp, i) == m);
    }
}

/// Every pattern map that extraction builds is well formed: each pattern id
/// in any occurrence list is a valid index into the pattern registry, and the
/// occurrence table has one entry per rank.
pub proof fn lemma_patternize_well_formed(indices: Seq<u32>, lcp: Seq<u32>)
    requires
        indices.len() == lcp.len(),
        lcp.len() <= u32::MAX,
        forall|t: int| 0 <= t < indices.len() ==> (indices[t] as int) < lcp.len(),
    ensures
        pm_wf(patternize_spec(indices, lcp)),
        patternize_spec(indices, lcp).order.len() == lcp.len(),
{
    lemma_pm_new_wf(lcp.len());
    lemma_patternize_loop_wf(pm_new(lcp.len()), indices, lcp, 1);
}


/// A sequence with at most one suffix rank yields no patterns: the extractor
/// registers nothing and every occurrence list stays empty.
pub proof fn lemma_trivial_sequence_no_patterns(indices: Seq<u32>, lcp: Seq<u32>)
    requires
        lcp.len() <= 1,
    ensures
        patternize_spec(indices, lcp).patterns.len() == 0,
        patternize_spec(indices, lcp).order.len() == lcp.len(),
        forall|i: int|
            0 <= i < patternize_spec(indices, lcp).order.len() ==> patternize_spec(
                indices,
                lcp,
            ).order[i].len() == 0,
{
    assert(seg_start(lcp, 1) >= lcp.len());
    assert(patternize_spec(indices, lcp) == pm_new(lcp.len()));
}

} // verus!
