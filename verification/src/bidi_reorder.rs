//! Line-level steps of the Unicode bidirectional algorithm: resetting the levels of
//! separators and trailing whitespace to the paragraph's level (rule L1), and visual
//! reordering (rule L2): the line's items, each with its embedding level, are grouped
//! into runs of equal level, and from the highest level down to the lowest odd one
//! every stretch of runs at that level or higher is reversed.

use std::ops::Range;
use vstd::prelude::*;
use vstd::utf8::*;

use crate::strings::{byte_len, char_len, lemma_byte_len_push};

verus! {

/// The deepest embedding level a resolved level can have.
pub const MAX_IMPLICIT_DEPTH: u8 = 126;

/// The runs of equal levels among the first `n` items, as (start, end) pairs, left
/// to right.
pub open spec fn runs_upto(lv: Seq<u8>, n: int) -> Seq<(int, int)>
    decreases n,
{
    if n <= 0 {
        Seq::empty()
    } else if n == 1 {
        seq![(0, 1)]
    } else {
        let r = runs_upto(lv, n - 1);
        if lv[n - 1] == lv[n - 2] {
            r.update(r.len() - 1, (r.last().0, n))
        } else {
            r.push((n - 1, n))
        }
    }
}

/// The runs of equal levels of a line.
pub open spec fn level_runs(lv: Seq<u8>) -> Seq<(int, int)> {
    runs_upto(lv, lv.len() as int)
}

/// `s` with the items from `a` to `b` in reverse order.
pub open spec fn reverse_range<A>(s: Seq<A>, a: int, b: int) -> Seq<A> {
    s.take(a) + s.subrange(a, b).reverse() + s.skip(b)
}

/// One pass of rule L2 from run `i` on: each stretch of runs whose level is `l` or
/// higher is reversed; `start` is where the stretch being read began, if one is open.
pub open spec fn reverse_pass(runs: Seq<(int, int)>, lv: Seq<u8>, l: int, i: int, start: Option<int>) -> Seq<(int, int)>
    decreases runs.len() - i,
{
    if i >= runs.len() {
        match start {
            Some(s) => if 0 <= s <= runs.len() {
                reverse_range(runs, s, runs.len() as int)
            } else {
                runs
            },
            None => runs,
        }
    } else if lv[runs[i].0] >= l {
        reverse_pass(runs, lv, l, i + 1, if start is None { Some(i) } else { start })
    } else {
        match start {
            Some(s) => if 0 <= s <= i {
                reverse_pass(reverse_range(runs, s, i), lv, l, i + 1, None)
            } else {
                reverse_pass(runs, lv, l, i + 1, None)
            },
            None => reverse_pass(runs, lv, l, i + 1, None),
        }
    }
}

/// Rule L2: passes for each level from `hi` down to `lo`.
pub open spec fn reverse_levels(runs: Seq<(int, int)>, lv: Seq<u8>, hi: int, lo: int) -> Seq<(int, int)>
    decreases hi - lo + 1,
{
    if hi < lo {
        runs
    } else {
        reverse_levels(reverse_pass(runs, lv, hi, 0, None), lv, hi - 1, lo)
    }
}

/// The lowest level of a non-empty line.
pub open spec fn min_level(lv: Seq<u8>) -> int
    decreases lv.len(),
{
    if lv.len() <= 1 {
        lv[0] as int
    } else {
        let m = min_level(lv.drop_last());
        if lv.last() < m {
            lv.last() as int
        } else {
            m
        }
    }
}

/// The highest level of a non-empty line.
pub open spec fn max_level(lv: Seq<u8>) -> int
    decreases lv.len(),
{
    if lv.len() <= 1 {
        lv[0] as int
    } else {
        let m = max_level(lv.drop_last());
        if lv.last() > m {
            lv.last() as int
        } else {
            m
        }
    }
}

/// The lowest odd level at or above `l`.
pub open spec fn lowest_odd_at_least(l: int) -> int {
    if l % 2 == 1 {
        l
    } else {
        l + 1
    }
}

/// The runs of a line in visual order.
pub open spec fn visual_runs(lv: Seq<u8>) -> Seq<(int, int)> {
    reverse_levels(level_runs(lv), lv, max_level(lv), lowest_odd_at_least(min_level(lv)))
}

/// What reordering needs: a non-empty line of levels that resolution can give, whose
/// lowest level has an odd level at or above it that resolution can give.
pub open spec fn reorder_ok(lv: Seq<u8>) -> bool {
    &&& lv.len() > 0
    &&& forall|i: int| 0 <= i < lv.len() ==> #[trigger] lv[i] <= MAX_IMPLICIT_DEPTH
    &&& lowest_odd_at_least(min_level(lv)) <= MAX_IMPLICIT_DEPTH
}

/// Reverse the items of `v` from `a` to `b`.
fn reverse_between(v: &mut Vec<(usize, usize)>, a: usize, b: usize)
    requires
        a <= b <= old(v)@.len(),
    ensures
        final(v)@ == reverse_range(old(v)@, a as int, b as int),
        final(v)@.len() == old(v)@.len(),
        forall|k: int|
            0 <= k < final(v)@.len() ==> #[trigger] final(v)@[k] == if a <= k < b {
                old(v)@[a + b - 1 - k]
            } else {
                old(v)@[k]
            },
{
    let ghost o = v@;
    let mut i = a;
    let mut j = b;
    while i < j && i < j - 1
        invariant
            a <= i <= j <= b,
            b <= o.len(),
            i - a == b - j,
            v@.len() == o.len(),
            forall|k: int|
                0 <= k < v@.len() ==> #[trigger] v@[k] == if (a <= k < i) || (j <= k < b) {
                    o[a + b - 1 - k]
                } else {
                    o[k]
                },
        decreases j - i,
    {
        let x = v[i];
        let y = v[j - 1];
        v.set(i, y);
        v.set(j - 1, x);
        i = i + 1;
        j = j - 1;
    }
    assert(v@ =~= reverse_range(o, a as int, b as int)) by {
        assert forall|k: int| 0 <= k < v@.len() implies #[trigger] v@[k] == reverse_range(o, a as int, b as int)[k] by {
            if a <= k < b {
                assert(reverse_range(o, a as int, b as int)[k] == o.subrange(a as int, b as int).reverse()[k - a]);
            } else if k >= b {
                assert(reverse_range(o, a as int, b as int)[k] == o.skip(b as int)[k - b]);
            }
        }
    }
}

/// Run positions as integer pairs.
pub open spec fn run_pairs(v: Seq<(usize, usize)>) -> Seq<(int, int)> {
    v.map_values(|r: (usize, usize)| (r.0 as int, r.1 as int))
}

/// Group a non-empty line's levels into runs of equal level, left to right; also give
/// the lowest and the highest level.
fn level_runs_of(line: &Vec<u8>) -> (r: (Vec<(usize, usize)>, u8, u8))
    requires
        line@.len() > 0,
    ensures
        run_pairs(r.0@) == level_runs(line@),
        r.1 == min_level(line@),
        r.2 == max_level(line@),
{
    let ghost lv = line@;
    let n = line.len();
    let mut runs: Vec<(usize, usize)> = Vec::new();
    let mut start: usize = 0;
    let mut run_level = line[0];
    let mut lo = run_level;
    let mut hi = run_level;
    let mut i: usize = 1;
    proof {
        assert(lv.take(1).drop_last() =~= Seq::<u8>::empty());
        assert(run_pairs(runs@).push((0, 1)) =~= seq![(0int, 1int)]);
    }
    while i < n
        invariant
            lv == line@,
            n == lv.len(),
            1 <= i <= n,
            start < i,
            run_level == lv[i - 1],
            run_level == lv[start as int],
            runs_upto(lv, i as int) == run_pairs(runs@).push((start as int, i as int)),
            forall|k: int| 0 <= k < runs@.len() ==> #[trigger] runs@[k].0 < runs@[k].1 <= start,
            lo == min_level(lv.take(i as int)),
            hi == max_level(lv.take(i as int)),
            lo <= run_level <= hi,
        decreases n - i,
    {
        let new_level = line[i];
        proof {
            assert(lv.take(i + 1).drop_last() =~= lv.take(i as int));
            assert(lv.take(i + 1).last() == new_level);
        }
        let ghost before = run_pairs(runs@);
        if new_level != run_level {
            runs.push((start, i));
            proof {
                assert(run_pairs(runs@) =~= before.push((start as int, i as int)));
            }
            start = i;
            run_level = new_level;
            if run_level < lo {
                lo = run_level;
            }
            if run_level > hi {
                hi = run_level;
            }
        } else {
            proof {
                let r = runs_upto(lv, i as int);
                assert(r.update(r.len() - 1, (r.last().0, i + 1)) =~= before.push((start as int, i + 1)));
            }
        }
        i = i + 1;
    }
    let ghost before = run_pairs(runs@);
    runs.push((start, n));
    proof {
        assert(run_pairs(runs@) =~= before.push((start as int, n as int)));
        assert(lv.take(n as int) =~= lv);
    }
    (runs, lo, hi)
}

/// Reorder a line's runs for display (rule L2): the runs of equal level, left to right,
/// then, from the highest level down to the lowest odd level at or above the lowest
/// one, every stretch of consecutive runs at that level or higher reversed.
pub fn reorder(line: &Vec<u8>) -> (runs: Vec<Range<usize>>)
    requires
        reorder_ok(line@),
    ensures
        runs@.map_values(|r: Range<usize>| (r.start as int, r.end as int)) == visual_runs(line@),
{
    let ghost lv = line@;
    let (mut runs, min_l, max_l) = level_runs_of(line);
    let run_count = runs.len();
    let ghost target = visual_runs(lv);
    let lo: u8 = if min_l % 2 == 1 {
        min_l
    } else {
        min_l + 1
    };
    let mut hi: u8 = max_l;
    proof {
        lemma_runs_in_line(lv, lv.len() as int);
        assert forall|k: int| 0 <= k < runs@.len() implies #[trigger] runs@[k].0 < lv.len() by {
            assert(run_pairs(runs@)[k] == level_runs(lv)[k]);
        }
    }
    while hi >= lo
        invariant
            lv == line@,
            1 <= lo,
            runs@.len() == run_count,
            forall|k: int| 0 <= k < runs@.len() ==> #[trigger] runs@[k].0 < lv.len(),
            reverse_levels(run_pairs(runs@), lv, hi as int, lo as int) == target,
        decreases hi,
    {
        let ghost at_start = run_pairs(runs@);
        let mut open: Option<usize> = None;
        let mut k: usize = 0;
        while k < run_count
            invariant
                lv == line@,
                runs@.len() == run_count,
                k <= run_count,
                forall|j: int| 0 <= j < runs@.len() ==> #[trigger] runs@[j].0 < lv.len(),
                open matches Some(s) ==> s < k,
                reverse_pass(run_pairs(runs@), lv, hi as int, k as int, match open {
                    Some(s) => Some(s as int),
                    None => None,
                }) == reverse_pass(at_start, lv, hi as int, 0, None),
            decreases run_count - k,
        {
            let level = line[runs[k].0];
            proof {
                assert(run_pairs(runs@)[k as int].0 == runs@[k as int].0);
            }
            if level >= hi {
                if open.is_none() {
                    open = Some(k);
                }
            } else {
                if let Some(s) = open {
                    let ghost prev = run_pairs(runs@);
                    reverse_between(&mut runs, s, k);
                    proof {
                        assert(run_pairs(runs@) =~= reverse_range(prev, s as int, k as int)) by {
                            assert forall|j: int| 0 <= j < runs@.len() implies #[trigger] run_pairs(runs@)[j]
                                == reverse_range(prev, s as int, k as int)[j] by {
                                if s <= j < k {
                                    assert(reverse_range(prev, s as int, k as int)[j] == prev.subrange(
                                        s as int,
                                        k as int,
                                    ).reverse()[j - s]);
                                } else if j >= k {
                                    assert(reverse_range(prev, s as int, k as int)[j] == prev.skip(k as int)[j - k]);
                                }
                            }
                        }
                    }
                    open = None;
                }
            }
            k = k + 1;
        }
        if let Some(s) = open {
            let ghost prev = run_pairs(runs@);
            reverse_between(&mut runs, s, run_count);
            proof {
                assert(run_pairs(runs@) =~= reverse_range(prev, s as int, run_count as int)) by {
                    assert forall|j: int| 0 <= j < runs@.len() implies #[trigger] run_pairs(runs@)[j]
                        == reverse_range(prev, s as int, run_count as int)[j] by {
                        if s <= j {
                            assert(reverse_range(prev, s as int, run_count as int)[j] == prev.subrange(
                                s as int,
                                run_count as int,
                            ).reverse()[j - s]);
                        }
                    }
                }
            }
        }
        hi = hi - 1;
    }
    let mut out: Vec<Range<usize>> = Vec::new();
    let mut k: usize = 0;
    while k < run_count
        invariant
            runs@.len() == run_count,
            k <= run_count,
            out@.map_values(|r: Range<usize>| (r.start as int, r.end as int)) == run_pairs(runs@).take(k as int),
        decreases run_count - k,
    {
        let (a, b) = runs[k];
        let ghost prev = out@;
        out.push(Range { start: a, end: b });
        proof {
            assert(out@.map_values(|r: Range<usize>| (r.start as int, r.end as int)) =~= prev.map_values(
                |r: Range<usize>| (r.start as int, r.end as int),
            ).push((a as int, b as int)));
            assert(run_pairs(runs@).take(k + 1) =~= run_pairs(runs@).take(k as int).push((a as int, b as int)));
        }
        k = k + 1;
    }
    proof {
        assert(run_pairs(runs@).take(run_count as int) =~= run_pairs(runs@));
    }
    out
}

/// The runs of the first `n` items start within the line.
proof fn lemma_runs_in_line(lv: Seq<u8>, n: int)
    requires
        0 <= n <= lv.len(),
    ensures
        forall|k: int| 0 <= k < runs_upto(lv, n).len() ==> 0 <= #[trigger] runs_upto(lv, n)[k].0 < n,
    decreases n,
{
    if n > 1 {
        lemma_runs_in_line(lv, n - 1);
        let r = runs_upto(lv, n - 1);
        if lv[n - 1] == lv[n - 2] {
            assert(r.len() > 0) by {
                assert(r.len() == 0 ==> false) by {
                    if n - 1 == 1 {
                    } else {
                        lemma_runs_nonempty(lv, n - 1);
                    }
                }
            }
            let u = r.update(r.len() - 1, (r.last().0, n));
            assert forall|k: int| 0 <= k < u.len() implies 0 <= #[trigger] u[k].0 < n by {
                assert(r[r.len() - 1].0 < n - 1);
                if k < r.len() - 1 {
                    assert(u[k] == r[k]);
                }
            }
        } else {
            let u = r.push((n - 1, n));
            assert forall|k: int| 0 <= k < u.len() implies 0 <= #[trigger] u[k].0 < n by {
                if k < r.len() {
                    assert(u[k] == r[k]);
                }
            }
        }
    }
}

/// A line with items has runs.
proof fn lemma_runs_nonempty(lv: Seq<u8>, n: int)
    requires
        n >= 1,
    ensures
        runs_upto(lv, n).len() >= 1,
    decreases n,
{
    if n > 1 {
        lemma_runs_nonempty(lv, n - 1);
    }
}

/// Reversing a stretch keeps the items.
proof fn lemma_reverse_range_items<A>(s: Seq<A>, a: int, b: int)
    requires
        0 <= a <= b <= s.len(),
    ensures
        reverse_range(s, a, b).to_multiset() == s.to_multiset(),
        reverse_range(s, a, b).len() == s.len(),
{
    let m = s.subrange(a, b);
    m.lemma_reverse_to_multiset();
    vstd::seq_lib::lemma_multiset_commutative(s.take(a), m.reverse());
    vstd::seq_lib::lemma_multiset_commutative(s.take(a) + m.reverse(), s.skip(b));
    vstd::seq_lib::lemma_multiset_commutative(s.take(a), m);
    vstd::seq_lib::lemma_multiset_commutative(s.take(a) + m, s.skip(b));
    assert(s.take(a) + m + s.skip(b) =~= s);
}

/// A pass keeps the runs.
proof fn lemma_reverse_pass_items(runs: Seq<(int, int)>, lv: Seq<u8>, l: int, i: int, start: Option<int>)
    requires
        0 <= i,
    ensures
        reverse_pass(runs, lv, l, i, start).to_multiset() == runs.to_multiset(),
    decreases runs.len() - i,
{
    if i >= runs.len() {
        if let Some(s) = start {
            if 0 <= s <= runs.len() {
                lemma_reverse_range_items(runs, s, runs.len() as int);
            }
        }
    } else if lv[runs[i].0] >= l {
        lemma_reverse_pass_items(runs, lv, l, i + 1, if start is None { Some(i) } else { start });
    } else {
        match start {
            Some(s) => if 0 <= s <= i {
                lemma_reverse_range_items(runs, s, i);
                lemma_reverse_pass_items(reverse_range(runs, s, i), lv, l, i + 1, None);
            } else {
                lemma_reverse_pass_items(runs, lv, l, i + 1, None);
            },
            None => lemma_reverse_pass_items(runs, lv, l, i + 1, None),
        }
    }
}

/// The passes keep the runs.
proof fn lemma_reverse_levels_items(runs: Seq<(int, int)>, lv: Seq<u8>, hi: int, lo: int)
    ensures
        reverse_levels(runs, lv, hi, lo).to_multiset() == runs.to_multiset(),
    decreases hi - lo + 1,
{
    if hi >= lo {
        lemma_reverse_pass_items(runs, lv, hi, 0, None);
        lemma_reverse_levels_items(reverse_pass(runs, lv, hi, 0, None), lv, hi - 1, lo);
    }
}

/// Reordering shows every run of the line exactly once: the visual order is a
/// permutation of the runs.
pub proof fn lemma_reorder_permutes(lv: Seq<u8>)
    ensures
        visual_runs(lv).to_multiset() == level_runs(lv).to_multiset(),
{
    lemma_reverse_levels_items(level_runs(lv), lv, max_level(lv), lowest_odd_at_least(min_level(lv)));
}

/// The runs of the first `n` items cover them left to right, each of one level,
/// neighbours of different levels.
proof fn lemma_runs_upto_partition(lv: Seq<u8>, n: int)
    requires
        1 <= n <= lv.len(),
    ensures
        ({
            let r = runs_upto(lv, n);
            &&& r.len() > 0
            &&& r[0].0 == 0
            &&& r.last().1 == n
            &&& forall|k: int| 0 <= k < r.len() ==> (#[trigger] r[k]).0 < r[k].1
            &&& forall|k: int| 0 <= k < r.len() - 1 ==> #[trigger] r[k].1 == r[k + 1].0 && lv[r[k].0] != lv[r[k + 1].0]
            &&& forall|k: int, i: int| 0 <= k < r.len() && #[trigger] r[k].0 <= i < r[k].1 ==> #[trigger] lv[i] == lv[r[k].0]
        }),
    decreases n,
{
    if n > 1 {
        lemma_runs_upto_partition(lv, n - 1);
        let r = runs_upto(lv, n - 1);
        if lv[n - 1] == lv[n - 2] {
            let u = r.update(r.len() - 1, (r.last().0, n));
            assert forall|k: int, i: int| 0 <= k < u.len() && #[trigger] u[k].0 <= i < u[k].1 implies #[trigger] lv[i] == lv[u[k].0] by {
                if k < u.len() - 1 {
                    assert(u[k] == r[k]);
                } else if i < n - 1 {
                    assert(r[k].0 <= i < r[k].1);
                } else {
                    assert(r[k].0 <= n - 2 < r[k].1);
                }
            }
            assert forall|k: int| 0 <= k < u.len() - 1 implies #[trigger] u[k].1 == u[k + 1].0 && lv[u[k].0] != lv[u[k + 1].0] by {
                assert(u[k] == r[k]);
                if k + 1 < u.len() - 1 {
                    assert(u[k + 1] == r[k + 1]);
                }
            }
            assert forall|k: int| 0 <= k < u.len() implies (#[trigger] u[k]).0 < u[k].1 by {
                if k < u.len() - 1 {
                    assert(u[k] == r[k]);
                }
            }
        } else {
            let u = r.push((n - 1, n));
            assert(r.last().0 <= n - 2 < r.last().1);
            assert(lv[n - 2] == lv[r.last().0]);
            assert forall|k: int, i: int| 0 <= k < u.len() && #[trigger] u[k].0 <= i < u[k].1 implies #[trigger] lv[i] == lv[u[k].0] by {
                if k < r.len() {
                    assert(u[k] == r[k]);
                }
            }
            assert forall|k: int| 0 <= k < u.len() - 1 implies #[trigger] u[k].1 == u[k + 1].0 && lv[u[k].0] != lv[u[k + 1].0] by {
                assert(u[k] == r[k]);
                if k + 1 < r.len() {
                    assert(u[k + 1] == r[k + 1]);
                }
            }
            assert forall|k: int| 0 <= k < u.len() implies (#[trigger] u[k]).0 < u[k].1 by {
                if k < r.len() {
                    assert(u[k] == r[k]);
                }
            }
        }
    }
}

/// The runs of a non-empty line cover it left to right: the first starts at its start,
/// each ends where the next starts, the last ends at its end; every item of a run has
/// the run's level, and neighbouring runs differ in level.
pub proof fn lemma_level_runs_partition(lv: Seq<u8>)
    requires
        lv.len() > 0,
    ensures
        ({
            let r = level_runs(lv);
            &&& r.len() > 0
            &&& r[0].0 == 0
            &&& r.last().1 == lv.len()
            &&& forall|k: int| 0 <= k < r.len() ==> (#[trigger] r[k]).0 < r[k].1
            &&& forall|k: int| 0 <= k < r.len() - 1 ==> #[trigger] r[k].1 == r[k + 1].0 && lv[r[k].0] != lv[r[k + 1].0]
            &&& forall|k: int, i: int| 0 <= k < r.len() && #[trigger] r[k].0 <= i < r[k].1 ==> #[trigger] lv[i] == lv[r[k].0]
        }),
{
    lemma_runs_upto_partition(lv, lv.len() as int);
}

/// The bidirectional character types.
#[derive(Clone, Copy, Debug, PartialEq, Eq, Structural)]
pub enum BidiClass {
    AL,
    AN,
    B,
    BN,
    CS,
    EN,
    ES,
    ET,
    FSI,
    L,
    LRE,
    LRI,
    LRO,
    NSM,
    ON,
    PDF,
    PDI,
    R,
    RLE,
    RLI,
    RLO,
    S,
    WS,
}

/// How rule L1 treats a character type.
pub enum ResetKind {
    /// Removed by rule X9: passed over
    Ignored,
    /// A segment or paragraph separator: reset with the whitespace before it
    Separator,
    /// Whitespace or an isolate formatting character: reset when it comes before a
    /// separator or ends the line
    Space,
    /// Anything else: ends a stretch of whitespace
    Other,
}

/// How rule L1 treats a character type.
pub open spec fn reset_kind(c: BidiClass) -> ResetKind {
    match c {
        BidiClass::RLE | BidiClass::LRE | BidiClass::RLO | BidiClass::LRO | BidiClass::PDF
        | BidiClass::BN => ResetKind::Ignored,
        BidiClass::B | BidiClass::S => ResetKind::Separator,
        BidiClass::WS | BidiClass::FSI | BidiClass::LRI | BidiClass::RLI | BidiClass::PDI => ResetKind::Space,
        _ => ResetKind::Other,
    }
}

/// `lv` with the items from `a` to `b` set to `x`.
pub open spec fn fill_levels(lv: Seq<u8>, a: int, b: int, x: u8) -> Seq<u8> {
    Seq::new(lv.len(), |j: int| if a <= j < b { x } else { lv[j] })
}

/// Rule L1 over the first `k` characters: the levels so far, and where the stretch of
/// whitespace that may still be reset began, if one is open (from the line's start
/// on, one is).
pub open spec fn reset_state(text: Seq<char>, classes: Seq<BidiClass>, levels: Seq<u8>, para: u8, k: int) -> (
    Seq<u8>,
    Option<int>,
)
    decreases k,
{
    if k <= 0 {
        (levels, Some(0))
    } else {
        let prev = reset_state(text, classes, levels, para, k - 1);
        let i = byte_len(text.take(k - 1)) as int;
        match reset_kind(classes[i]) {
            ResetKind::Ignored => prev,
            ResetKind::Separator => {
                let from = match prev.1 {
                    Some(f) => f,
                    None => i,
                };
                (fill_levels(prev.0, from, i + encode_scalar(text[k - 1] as u32).len(), para), None)
            },
            ResetKind::Space => (prev.0, if prev.1 is None {
                Some(i)
            } else {
                prev.1
            }),
            ResetKind::Other => (prev.0, None),
        }
    }
}

/// Rule L1: separators, with the whitespace and isolate formatting characters just
/// before them, and the whitespace that ends the text take the paragraph's level.
/// Levels and types are given per byte of the text.
pub open spec fn reset_levels(text: Seq<char>, classes: Seq<BidiClass>, levels: Seq<u8>, para: u8) -> Seq<u8> {
    let st = reset_state(text, classes, levels, para, text.len() as int);
    match st.1 {
        Some(from) => fill_levels(st.0, from, st.0.len() as int, para),
        None => st.0,
    }
}

/// Set the levels from `a` to `b` to `x`.
fn fill_between(levels: &mut Vec<u8>, a: usize, b: usize, x: u8)
    requires
        a <= b <= old(levels)@.len(),
    ensures
        final(levels)@ == fill_levels(old(levels)@, a as int, b as int, x),
{
    let ghost o = levels@;
    let mut j = a;
    while j < b
        invariant
            a <= j <= b,
            b <= o.len(),
            levels@.len() == o.len(),
            forall|t: int| 0 <= t < o.len() ==> #[trigger] levels@[t] == if a <= t < j { x } else { o[t] },
        decreases b - j,
    {
        levels.set(j, x);
        j = j + 1;
    }
    assert(levels@ =~= fill_levels(o, a as int, b as int, x));
}

/// Apply rule L1 to a paragraph's levels: separators, with the whitespace and isolate
/// formatting characters just before them, and the whitespace at the end take the
/// paragraph's level. `levels` and `classes` hold the resolved level and the original
/// type of each byte of `text`.
pub fn adjust_levels(text: &str, levels: &Vec<u8>, classes: &Vec<BidiClass>, para_level: u8) -> (r: Vec<u8>)
    requires
        levels@.len() == byte_len(text@),
        classes@.len() == byte_len(text@),
    ensures
        r@ == reset_levels(text@, classes@, levels@, para_level),
{
    let ghost cs = text@;
    let n = levels.len();
    let mut out = levels.clone();
    proof {
        assert(out@ =~= levels@);
    }
    let mut reset_from: Option<usize> = Some(0);
    let mut i: usize = 0;
    proof {
        assert(cs.take(0) =~= Seq::<char>::empty());
    }
    for c in it: text.chars()
        invariant
            it.seq() == cs,
            cs == text@,
            n == byte_len(cs),
            n == levels@.len(),
            classes@.len() == n,
            i == byte_len(cs.take(it.index() as int)),
            (out@, match reset_from {
                Some(f) => Some(f as int),
                None => None,
            }) == reset_state(cs, classes@, levels@, para_level, it.index() as int),
            out@.len() == n,
            reset_from matches Some(f) ==> f <= i,
    {
        let ghost k = it.index() as int;
        proof {
            assert(cs.take(k + 1) =~= cs.take(k).push(c));
            lemma_byte_len_push(cs.take(k), c);
            crate::strings::lemma_byte_len_take(cs, k + 1);
        }
        let len = char_len(c);
        match classes[i] {
            BidiClass::RLE | BidiClass::LRE | BidiClass::RLO | BidiClass::LRO | BidiClass::PDF
            | BidiClass::BN => {},
            BidiClass::B | BidiClass::S => {
                let from = match reset_from {
                    Some(f) => f,
                    None => i,
                };
                fill_between(&mut out, from, i + len, para_level);
                reset_from = None;
            },
            BidiClass::WS | BidiClass::FSI | BidiClass::LRI | BidiClass::RLI | BidiClass::PDI => {
                if reset_from.is_none() {
                    reset_from = Some(i);
                }
            },
            _ => {
                reset_from = None;
            },
        }
        i = i + len;
    }
    proof {
        assert(cs.take(cs.len() as int) =~= cs);
    }
    if let Some(from) = reset_from {
        fill_between(&mut out, from, n, para_level);
    }
    out
}

} // verus!
