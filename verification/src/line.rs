//! One line of the board (a row or a column), as a sequence of optional
//! tile values, together with the two passes a directional move applies to
//! it: compaction toward the front and a single merge walk.

use vstd::prelude::*;

verus! {

/// The non-empty values of a line, in order, with the empties removed.
pub open spec fn kept_vals(s: Seq<Option<usize>>) -> Seq<Option<usize>>
    decreases s.len(),
{
    if s.len() == 0 {
        Seq::empty()
    } else if s.last() is Some {
        kept_vals(s.drop_last()).push(s.last())
    } else {
        kept_vals(s.drop_last())
    }
}

/// Compaction of a line toward index 0: the non-empty values keep their
/// order and move to the front, the tail is left empty.
pub open spec fn collapse_line(s: Seq<Option<usize>>) -> Seq<Option<usize>> {
    kept_vals(s) + Seq::new((s.len() - kept_vals(s).len()) as nat, |i: int| None::<usize>)
}

/// State of the merge walk from position `i` on: `res` is the line written
/// so far, `pv` and `pp` are the value and position of the tracked
/// `previous` cell. A merge doubles the previous value in place, empties
/// the current cell, and leaves the merged cell out of later comparisons.
/// Two equal values merge only while their doubled value still fits in a
/// `usize`; beyond that unreachable bound they stay apart.
pub open spec fn merge_from(
    s: Seq<Option<usize>>,
    res: Seq<Option<usize>>,
    i: int,
    pv: Option<usize>,
    pp: int,
) -> Seq<Option<usize>>
    decreases s.len() - i,
{
    if i < 0 || i >= s.len() {
        res
    } else {
        match (pv, s[i]) {
            (Some(a), Some(b)) => {
                if a == b && a <= usize::MAX / 2 {
                    merge_from(
                        s,
                        res.update(pp, Some((2 * a) as usize)).update(i, None),
                        i + 1,
                        None,
                        i,
                    )
                } else {
                    merge_from(s, res, i + 1, s[i], i)
                }
            },
            _ => merge_from(s, res, i + 1, s[i], i),
        }
    }
}

/// One merge walk over a whole line, front to back: the first cell is
/// recorded as `previous` without being compared.
pub open spec fn merge_line(s: Seq<Option<usize>>) -> Seq<Option<usize>> {
    if s.len() == 0 {
        s
    } else {
        merge_from(s, s, 1, s[0], 0)
    }
}

/// The full effect of a directional move on one line: compact, merge
/// neighbours once, compact again.
pub open spec fn line_result(s: Seq<Option<usize>>) -> Seq<Option<usize>> {
    collapse_line(merge_line(collapse_line(s)))
}

/// How many cells of the line are non-empty.
pub open spec fn count_some(s: Seq<Option<usize>>) -> int
    decreases s.len(),
{
    if s.len() == 0 {
        0
    } else {
        count_some(s.drop_last()) + if s.last() is Some {
            1int
        } else {
            0int
        }
    }
}

/// The value a cell contributes to the board total: its tile value, or 0
/// when empty.
pub open spec fn opt_val(v: Option<usize>) -> int {
    match v {
        Some(x) => x as int,
        None => 0,
    }
}

/// The total of the line's tile values.
pub open spec fn line_sum(s: Seq<Option<usize>>) -> int
    decreases s.len(),
{
    if s.len() == 0 {
        0
    } else {
        line_sum(s.drop_last()) + opt_val(s.last())
    }
}

/// The line is fully packed toward index 0: once a cell is empty, every
/// later cell is empty too.
pub open spec fn packed(s: Seq<Option<usize>>) -> bool {
    forall|i: int, j: int| 0 <= i < j < s.len() && s[i] is None ==> s[j] is None
}

/// No two neighbouring cells hold equal values.
pub open spec fn no_adjacent_pair(s: Seq<Option<usize>>) -> bool {
    forall|j: int| 1 <= j < s.len() && s[j - 1] is Some ==> #[trigger] s[j] != s[j - 1]
}

pub proof fn lemma_kept_vals_len(s: Seq<Option<usize>>)
    ensures
        kept_vals(s).len() <= s.len(),
    decreases s.len(),
{
    if s.len() > 0 {
        lemma_kept_vals_len(s.drop_last());
    }
}

pub proof fn lemma_collapse_line_len(s: Seq<Option<usize>>)
    ensures
        collapse_line(s).len() == s.len(),
{
    lemma_kept_vals_len(s);
}

pub proof fn lemma_count_some_bounds(s: Seq<Option<usize>>)
    ensures
        0 <= count_some(s) <= s.len(),
        count_some(s) == s.len() ==> forall|k: int| 0 <= k < s.len() ==> (#[trigger] s[k]) is Some,
        (forall|k: int| 0 <= k < s.len() ==> (#[trigger] s[k]) is Some) ==> count_some(s)
            == s.len(),
    decreases s.len(),
{
    if s.len() > 0 {
        lemma_count_some_bounds(s.drop_last());
        if count_some(s) == s.len() {
            assert forall|k: int| 0 <= k < s.len() implies (#[trigger] s[k]) is Some by {
                if k < s.len() - 1 {
                    assert(s.drop_last()[k] == s[k]);
                }
            }
        }
        if forall|k: int| 0 <= k < s.len() ==> (#[trigger] s[k]) is Some {
            assert(forall|k: int|
                0 <= k < s.drop_last().len() ==> (#[trigger] s.drop_last()[k]) is Some);
        }
    }
}

pub proof fn lemma_kept_vals_all_some(s: Seq<Option<usize>>)
    ensures
        kept_vals(s).len() == count_some(s),
        forall|t: int| 0 <= t < kept_vals(s).len() ==> (#[trigger] kept_vals(s)[t]) is Some,
    decreases s.len(),
{
    if s.len() > 0 {
        lemma_kept_vals_all_some(s.drop_last());
    }
}

pub proof fn lemma_count_some_add(a: Seq<Option<usize>>, b: Seq<Option<usize>>)
    ensures
        count_some(a + b) == count_some(a) + count_some(b),
    decreases b.len(),
{
    if b.len() == 0 {
        assert(a + b =~= a);
    } else {
        assert((a + b).drop_last() =~= a + b.drop_last());
        assert((a + b).last() == b.last());
        lemma_count_some_add(a, b.drop_last());
    }
}

pub proof fn lemma_count_some_nones(n: nat)
    ensures
        count_some(Seq::new(n, |i: int| None::<usize>)) == 0,
    decreases n,
{
    if n > 0 {
        assert(Seq::new(n, |i: int| None::<usize>).drop_last() =~= Seq::new(
            (n - 1) as nat,
            |i: int| None::<usize>,
        ));
        lemma_count_some_nones((n - 1) as nat);
    }
}

pub proof fn lemma_collapse_count(s: Seq<Option<usize>>)
    ensures
        count_some(collapse_line(s)) == count_some(s),
        collapse_line(s).len() == s.len(),
{
    lemma_kept_vals_len(s);
    lemma_kept_vals_all_some(s);
    lemma_count_some_bounds(kept_vals(s));
    lemma_count_some_add(
        kept_vals(s),
        Seq::new((s.len() - kept_vals(s).len()) as nat, |i: int| None::<usize>),
    );
    lemma_count_some_nones((s.len() - kept_vals(s).len()) as nat);
}

pub proof fn lemma_count_some_update(s: Seq<Option<usize>>, k: int, x: Option<usize>)
    requires
        0 <= k < s.len(),
    ensures
        count_some(s.update(k, x)) == count_some(s) - (if s[k] is Some {
            1int
        } else {
            0int
        }) + (if x is Some {
            1int
        } else {
            0int
        }),
    decreases s.len(),
{
    if k == s.len() - 1 {
        assert(s.update(k, x).drop_last() =~= s.drop_last());
        assert(s.update(k, x).last() == x);
    } else {
        assert(s.update(k, x).drop_last() =~= s.drop_last().update(k, x));
        assert(s.update(k, x).last() == s.last());
        lemma_count_some_update(s.drop_last(), k, x);
    }
}

pub proof fn lemma_merge_from_len(
    s: Seq<Option<usize>>,
    res: Seq<Option<usize>>,
    i: int,
    pv: Option<usize>,
    pp: int,
)
    requires
        res.len() == s.len(),
        pv is Some ==> 0 <= pp < s.len(),
    ensures
        merge_from(s, res, i, pv, pp).len() == res.len(),
    decreases s.len() - i,
{
    if 0 <= i < s.len() {
        match (pv, s[i]) {
            (Some(a), Some(b)) => {
                if a == b && a <= usize::MAX / 2 {
                    lemma_merge_from_len(
                        s,
                        res.update(pp, Some((2 * a) as usize)).update(i, None),
                        i + 1,
                        None,
                        i,
                    );
                } else {
                    lemma_merge_from_len(s, res, i + 1, s[i], i);
                }
            },
            _ => {
                lemma_merge_from_len(s, res, i + 1, s[i], i);
            },
        }
    }
}

pub proof fn lemma_merge_line_len(s: Seq<Option<usize>>)
    ensures
        merge_line(s).len() == s.len(),
{
    if s.len() > 0 {
        lemma_merge_from_len(s, s, 1, s[0], 0);
    }
}

pub proof fn lemma_line_result_len(s: Seq<Option<usize>>)
    ensures
        line_result(s).len() == s.len(),
{
    lemma_collapse_line_len(s);
    lemma_merge_line_len(collapse_line(s));
    lemma_collapse_line_len(merge_line(collapse_line(s)));
}

pub proof fn lemma_merge_from_count(
    s: Seq<Option<usize>>,
    res: Seq<Option<usize>>,
    i: int,
    pv: Option<usize>,
    pp: int,
)
    requires
        res.len() == s.len(),
        0 <= i <= s.len(),
        pv is Some ==> 0 <= pp < i && pp < s.len() && res[pp] == pv,
        forall|j: int| i <= j < s.len() ==> res[j] == s[j],
    ensures
        count_some(merge_from(s, res, i, pv, pp)) <= count_some(res),
        merge_from(s, res, i, pv, pp) != res ==> count_some(merge_from(s, res, i, pv, pp))
            < count_some(res),
    decreases s.len() - i,
{
    if i < s.len() {
        match (pv, s[i]) {
            (Some(a), Some(b)) => {
                if a == b && a <= usize::MAX / 2 {
                    let res1 = res.update(pp, Some((2 * a) as usize)).update(i, None);
                    lemma_count_some_update(res, pp, Some((2 * a) as usize));
                    lemma_count_some_update(res.update(pp, Some((2 * a) as usize)), i, None);
                    assert(count_some(res1) == count_some(res) - 1);
                    lemma_merge_from_count(s, res1, i + 1, None, i);
                } else {
                    lemma_merge_from_count(s, res, i + 1, s[i], i);
                }
            },
            _ => {
                lemma_merge_from_count(s, res, i + 1, s[i], i);
            },
        }
    }
}

pub proof fn lemma_merge_line_count(s: Seq<Option<usize>>)
    ensures
        count_some(merge_line(s)) <= count_some(s),
        merge_line(s) != s ==> count_some(merge_line(s)) < count_some(s),
{
    if s.len() > 0 {
        lemma_merge_from_count(s, s, 1, s[0], 0);
    }
}

pub proof fn lemma_kept_vals_of_all_some(s: Seq<Option<usize>>)
    requires
        forall|k: int| 0 <= k < s.len() ==> (#[trigger] s[k]) is Some,
    ensures
        kept_vals(s) == s,
        collapse_line(s) == s,
    decreases s.len(),
{
    if s.len() == 0 {
        assert(kept_vals(s) =~= s);
    } else {
        assert(forall|k: int|
            0 <= k < s.drop_last().len() ==> (#[trigger] s.drop_last()[k]) is Some);
        lemma_kept_vals_of_all_some(s.drop_last());
        assert(kept_vals(s) =~= s);
    }
    assert(collapse_line(s) =~= s);
}

/// A line whose move result is not the line itself has an empty cell in
/// that result: sliding closed a gap that reappears at the tail, or a
/// merge emptied a cell.
pub proof fn lemma_line_result_changed(s: Seq<Option<usize>>)
    ensures
        line_result(s) != s ==> exists|j: int|
            0 <= j < s.len() && (#[trigger] line_result(s)[j]) is None,
{
    let c1 = collapse_line(s);
    let m = merge_line(c1);
    let c2 = collapse_line(m);
    lemma_collapse_count(s);
    lemma_merge_line_count(c1);
    lemma_merge_line_len(c1);
    lemma_collapse_count(m);
    lemma_count_some_bounds(s);
    lemma_count_some_bounds(c2);
    if line_result(s) != s {
        if count_some(c2) < s.len() {
            assert(!(forall|k: int| 0 <= k < c2.len() ==> (#[trigger] c2[k]) is Some));
            assert(exists|j: int| 0 <= j < s.len() && (#[trigger] line_result(s)[j]) is None);
        } else {
            assert(count_some(s) == s.len());
            lemma_kept_vals_of_all_some(s);
            assert(c1 == s);
            assert(count_some(m) == count_some(c2));
            assert(m == c1);
            lemma_count_some_bounds(m);
            lemma_kept_vals_of_all_some(m);
            assert(c2 == s);
            assert(false);
        }
    }
}

pub proof fn lemma_line_sum_first(s: Seq<Option<usize>>)
    requires
        s.len() > 0,
    ensures
        line_sum(s) == opt_val(s[0]) + line_sum(s.subrange(1, s.len() as int)),
    decreases s.len(),
{
    if s.len() == 1 {
        assert(s.subrange(1, 1).len() == 0);
        assert(line_sum(s.subrange(1, 1)) == 0);
        assert(s.drop_last().len() == 0);
        assert(line_sum(s.drop_last()) == 0);
        assert(s.last() == s[0]);
    } else {
        let sub = s.subrange(1, s.len() as int);
        lemma_line_sum_first(s.drop_last());
        assert(s.drop_last()[0] == s[0]);
        assert(s.drop_last().subrange(1, s.drop_last().len() as int) =~= sub.drop_last());
        assert(sub.last() == s.last());
        assert(line_sum(sub) == line_sum(sub.drop_last()) + opt_val(sub.last()));
    }
}

pub proof fn lemma_line_sum_add(a: Seq<Option<usize>>, b: Seq<Option<usize>>)
    ensures
        line_sum(a + b) == line_sum(a) + line_sum(b),
    decreases b.len(),
{
    if b.len() == 0 {
        assert(a + b =~= a);
    } else {
        assert((a + b).drop_last() =~= a + b.drop_last());
        assert((a + b).last() == b.last());
        lemma_line_sum_add(a, b.drop_last());
    }
}

pub proof fn lemma_line_sum_nones(n: nat)
    ensures
        line_sum(Seq::new(n, |i: int| None::<usize>)) == 0,
    decreases n,
{
    if n > 0 {
        assert(Seq::new(n, |i: int| None::<usize>).drop_last() =~= Seq::new(
            (n - 1) as nat,
            |i: int| None::<usize>,
        ));
        lemma_line_sum_nones((n - 1) as nat);
    }
}

pub proof fn lemma_kept_vals_sum(s: Seq<Option<usize>>)
    ensures
        line_sum(kept_vals(s)) == line_sum(s),
    decreases s.len(),
{
    if s.len() > 0 {
        lemma_kept_vals_sum(s.drop_last());
        if s.last() is Some {
            let k = kept_vals(s.drop_last());
            assert(k.push(s.last()).drop_last() =~= k);
            assert(k.push(s.last()).last() == s.last());
            assert(line_sum(k.push(s.last())) == line_sum(k) + opt_val(s.last()));
        }
    }
}

/// Compaction never changes the total of a line's tile values.
pub proof fn lemma_collapse_line_sum(s: Seq<Option<usize>>)
    ensures
        line_sum(collapse_line(s)) == line_sum(s),
{
    lemma_kept_vals_len(s);
    lemma_kept_vals_sum(s);
    lemma_line_sum_add(
        kept_vals(s),
        Seq::new((s.len() - kept_vals(s).len()) as nat, |i: int| None::<usize>),
    );
    lemma_line_sum_nones((s.len() - kept_vals(s).len()) as nat);
}

pub proof fn lemma_line_sum_update(s: Seq<Option<usize>>, k: int, x: Option<usize>)
    requires
        0 <= k < s.len(),
    ensures
        line_sum(s.update(k, x)) == line_sum(s) - opt_val(s[k]) + opt_val(x),
    decreases s.len(),
{
    if k == s.len() - 1 {
        assert(s.update(k, x).drop_last() =~= s.drop_last());
        assert(s.update(k, x).last() == x);
    } else {
        assert(s.update(k, x).drop_last() =~= s.drop_last().update(k, x));
        assert(s.update(k, x).last() == s.last());
        lemma_line_sum_update(s.drop_last(), k, x);
    }
}

pub proof fn lemma_merge_from_sum(
    s: Seq<Option<usize>>,
    res: Seq<Option<usize>>,
    i: int,
    pv: Option<usize>,
    pp: int,
)
    requires
        res.len() == s.len(),
        0 <= i <= s.len(),
        pv is Some ==> 0 <= pp < i && pp < s.len() && res[pp] == pv,
        forall|j: int| i <= j < s.len() ==> res[j] == s[j],
    ensures
        line_sum(merge_from(s, res, i, pv, pp)) == line_sum(res),
    decreases s.len() - i,
{
    if i < s.len() {
        match (pv, s[i]) {
            (Some(a), Some(b)) => {
                if a == b && a <= usize::MAX / 2 {
                    let res1 = res.update(pp, Some((2 * a) as usize)).update(i, None);
                    lemma_line_sum_update(res, pp, Some((2 * a) as usize));
                    lemma_line_sum_update(res.update(pp, Some((2 * a) as usize)), i, None);
                    assert(line_sum(res1) == line_sum(res));
                    lemma_merge_from_sum(s, res1, i + 1, None, i);
                } else {
                    lemma_merge_from_sum(s, res, i + 1, s[i], i);
                }
            },
            _ => {
                lemma_merge_from_sum(s, res, i + 1, s[i], i);
            },
        }
    }
}

/// A merge walk never changes the total of a line's tile values: each
/// merge replaces `v, v` by `2v` and an empty cell.
pub proof fn lemma_merge_line_sum(s: Seq<Option<usize>>)
    ensures
        line_sum(merge_line(s)) == line_sum(s),
{
    if s.len() > 0 {
        lemma_merge_from_sum(s, s, 1, s[0], 0);
    }
}

pub proof fn lemma_line_sum_reverse(s: Seq<Option<usize>>)
    ensures
        line_sum(s.reverse()) == line_sum(s),
    decreases s.len(),
{
    if s.len() > 0 {
        let sub = s.subrange(1, s.len() as int);
        assert(s.reverse().drop_last() =~= sub.reverse());
        assert(s.reverse().last() == s[0]);
        lemma_line_sum_reverse(sub);
        lemma_line_sum_first(s);
    }
}

/// The full move applied to one line preserves the total of its values.
pub proof fn lemma_line_result_sum(s: Seq<Option<usize>>)
    ensures
        line_sum(line_result(s)) == line_sum(s),
{
    lemma_collapse_line_sum(s);
    lemma_merge_line_sum(collapse_line(s));
    lemma_collapse_line_sum(merge_line(collapse_line(s)));
}

pub proof fn lemma_merge_from_nofire(
    s: Seq<Option<usize>>,
    res: Seq<Option<usize>>,
    i: int,
    pv: Option<usize>,
    pp: int,
)
    requires
        1 <= i <= s.len(),
        pv == s[i - 1],
        no_adjacent_pair(s),
    ensures
        merge_from(s, res, i, pv, pp) == res,
    decreases s.len() - i,
{
    if i < s.len() {
        match (pv, s[i]) {
            (Some(a), Some(b)) => {
                assert(s[i] != s[i - 1]);
                assert(a != b);
                lemma_merge_from_nofire(s, res, i + 1, s[i], i);
            },
            _ => {
                lemma_merge_from_nofire(s, res, i + 1, s[i], i);
            },
        }
    }
}

/// With no equal neighbouring values, the merge walk changes nothing.
pub proof fn lemma_merge_line_nofire(s: Seq<Option<usize>>)
    requires
        no_adjacent_pair(s),
    ensures
        merge_line(s) == s,
{
    if s.len() > 0 {
        lemma_merge_from_nofire(s, s, 1, s[0], 0);
    }
}

/// Compacting a line that is already fully packed changes nothing.
pub proof fn lemma_packed_collapse(s: Seq<Option<usize>>)
    requires
        packed(s),
    ensures
        collapse_line(s) == s,
    decreases s.len(),
{
    if s.len() == 0 {
        assert(collapse_line(s) =~= s);
    } else if s.last() is None {
        assert forall|i: int, j: int|
            0 <= i < j < s.drop_last().len() && s.drop_last()[i] is None implies s.drop_last()[j]
            is None by {
            assert(s[i] == s.drop_last()[i]);
            assert(s[j] == s.drop_last()[j]);
        }
        lemma_packed_collapse(s.drop_last());
        lemma_kept_vals_len(s);
        lemma_kept_vals_len(s.drop_last());
        assert(collapse_line(s) =~= s) by {
            assert forall|t: int| 0 <= t < s.len() implies collapse_line(s)[t] == s[t] by {
                if t < kept_vals(s).len() {
                    assert(collapse_line(s)[t] == kept_vals(s)[t]);
                    assert(collapse_line(s.drop_last())[t] == kept_vals(s.drop_last())[t]);
                    assert(s.drop_last()[t] == s[t]);
                } else if t < s.len() - 1 {
                    assert(collapse_line(s)[t] is None);
                    assert(collapse_line(s.drop_last())[t] is None);
                    assert(s.drop_last()[t] == s[t]);
                } else {
                    assert(collapse_line(s)[t] is None);
                }
            }
        };
    } else {
        assert forall|k: int| 0 <= k < s.len() implies (#[trigger] s[k]) is Some by {
            if s[k] is None && k < s.len() - 1 {
                assert(s[s.len() - 1] is None);
            }
        }
        lemma_kept_vals_of_all_some(s);
    }
}

/// A move toward an edge against which the line is already fully packed,
/// with no equal neighbours, leaves the line exactly as it was.
pub proof fn lemma_line_result_noop(s: Seq<Option<usize>>)
    requires
        packed(s),
        no_adjacent_pair(s),
    ensures
        line_result(s) == s,
{
    lemma_packed_collapse(s);
    lemma_merge_line_nofire(s);
}

/// Compacts a line of cell values toward index 0, keeping the order of
/// the non-empty values and leaving the tail empty.
pub fn collapse_line_vals(line: &Vec<Option<usize>>) -> (r: Vec<Option<usize>>)
    ensures
        r@ == collapse_line(line@),
{
    let n = line.len();
    let mut out: Vec<Option<usize>> = Vec::new();
    for k in 0..n
        invariant
            n == line@.len(),
            out@ == kept_vals(line@.take(k as int)),
    {
        proof {
            assert(line@.take(k + 1).drop_last() =~= line@.take(k as int));
            assert(line@.take(k + 1).last() == line@[k as int]);
        }
        match line[k] {
            Some(v) => out.push(Some(v)),
            None => {},
        }
    }
    proof {
        assert(line@.take(n as int) =~= line@);
        lemma_kept_vals_len(line@);
    }
    let m = out.len();
    for j in m..n
        invariant
            n == line@.len(),
            m == kept_vals(line@).len(),
            m <= n,
            out@.len() == j,
            out@.subrange(0, m as int) == kept_vals(line@),
            forall|t: int| m <= t < j ==> out@[t] is None,
    {
        proof {
            assert(out@.push(None).subrange(0, m as int) =~= out@.subrange(0, m as int));
        }
        out.push(None);
    }
    proof {
        assert(out@ =~= collapse_line(line@));
    }
    out
}

/// Merges equal neighbouring values once along a line, front to back,
/// exactly as one directional move does between its two compactions: the
/// previous value is doubled in place, the current cell is emptied, and
/// the merged cell takes no further part in the walk.
pub fn merge_neighbouring(line: &Vec<Option<usize>>) -> (r: Vec<Option<usize>>)
    ensures
        r@ == merge_line(line@),
{
    let n = line.len();
    let mut out: Vec<Option<usize>> = Vec::new();
    for k in 0..n
        invariant
            n == line@.len(),
            out@ == line@.take(k as int),
    {
        proof {
            assert(line@.take(k + 1) =~= line@.take(k as int).push(line@[k as int]));
        }
        out.push(line[k]);
    }
    proof {
        assert(out@ =~= line@);
    }
    if n == 0 {
        return out;
    }
    let mut pv: Option<usize> = line[0];
    let mut pp: usize = 0;
    for i in 1..n
        invariant
            n == line@.len(),
            out@.len() == n,
            pp < i,
            i <= n,
            merge_from(line@, out@, i as int, pv, pp as int) == merge_line(line@),
    {
        let c = line[i];
        let fire = match (pv, c) {
            (Some(a), Some(b)) => a == b && a <= usize::MAX / 2,
            _ => false,
        };
        let ghost prev_out = out@;
        let ghost prev_pv = pv;
        let ghost prev_pp = pp as int;
        if fire {
            let v = pv.unwrap();
            out[pp] = Some(2 * v);
            out[i] = None;
            pv = None;
            pp = i;
        } else {
            pv = c;
            pp = i;
        }
        proof {
            assert(merge_from(line@, prev_out, i as int, prev_pv, prev_pp)
                == merge_from(line@, out@, i + 1, pv, pp as int));
        }
    }
    proof {
        assert(merge_from(line@, out@, n as int, pv, pp as int) == out@);
    }
    out
}

} // verus!
