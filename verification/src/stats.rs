//! The summary statistics a vault reports over per-file and
//! per-headline counts: total, integer mean, percentage, maximum,
//! minimum, median, histogram and mode.

use vstd::prelude::*;
use vstd::relations::{sorted_by, total_ordering};

verus! {

broadcast use vstd::seq_lib::group_to_multiset_ensures;

/// `<=` on counts, the order the statistics sort by.
pub open spec fn count_le() -> spec_fn(usize, usize) -> bool {
    |a: usize, b: usize| a <= b
}

/// The counts in ascending order.
pub open spec fn sorted_counts(s: Seq<usize>) -> Seq<usize> {
    s.sort_by(count_le())
}

/// The middle of an ascending sequence: the middle element, or the
/// midpoint (rounded down) of the two middle elements.
pub open spec fn middle_of(t: Seq<usize>) -> int {
    let mid = t.len() / 2;
    if t.len() % 2 == 1 {
        t[mid as int] as int
    } else {
        (t[mid - 1] + t[mid as int]) / 2
    }
}

/// The median of a multiset of counts (`None` when empty).
pub open spec fn median_of(s: Seq<usize>) -> Option<int> {
    if s.len() == 0 {
        None
    } else {
        Some(middle_of(sorted_counts(s)))
    }
}

/// Sum of the counts.
pub open spec fn sum_of(s: Seq<usize>) -> int
    decreases s.len(),
{
    if s.len() == 0 {
        0
    } else {
        sum_of(s.drop_last()) + s.last()
    }
}

pub proof fn lemma_count_le_total()
    ensures
        total_ordering(count_le()),
{
}

/// The counts in ascending order.
pub fn sort_counts(v: &Vec<usize>) -> (r: Vec<usize>)
    ensures
        r@ == sorted_counts(v@),
        r@.to_multiset() == v@.to_multiset(),
        sorted_by(r@, count_le()),
{
    let mut out: Vec<usize> = Vec::new();
    let mut i: usize = 0;
    while i < v.len()
        invariant
            i <= v.len(),
            sorted_by(out@, count_le()),
            out@.to_multiset() == v@.take(i as int).to_multiset(),
        decreases v.len() - i,
    {
        let x = v[i];
        let mut pos: usize = 0;
        while pos < out.len() && out[pos] <= x
            invariant
                pos <= out.len(),
                forall|j: int| 0 <= j < pos ==> #[trigger] out@[j] <= x,
            decreases out.len() - pos,
        {
            pos = pos + 1;
        }
        let ghost old_out = out@;
        out.insert(pos, x);
        proof {
            assert(v@.take(i + 1) =~= v@.take(i as int).push(x));
            assert forall|a: int, b: int| 0 <= a < b < out@.len() implies #[trigger] (count_le())(
                out@[a],
                out@[b],
            ) by {
                if a < pos && b == pos {
                } else if a == pos && b > pos {
                    assert(out@[b] == old_out[b - 1]);
                    if pos < old_out.len() {
                        assert((count_le())(old_out[pos as int], old_out[b - 1]) || pos == b - 1);
                    }
                } else if a < pos && b > pos {
                    assert((count_le())(old_out[a], old_out[b - 1]));
                } else if b < pos {
                    assert((count_le())(old_out[a], old_out[b]));
                } else {
                    assert((count_le())(old_out[a - 1], old_out[b - 1]));
                }
            }
        }
        i = i + 1;
    }
    assert(v@.take(i as int) =~= v@);
    proof {
        lemma_count_le_total();
        v@.lemma_sort_by_ensures(count_le());
        vstd::seq_lib::lemma_sorted_unique(out@, sorted_counts(v@), count_le());
    }
    out
}

/// Median of the counts (`None` when there are none); an even number
/// of counts gives the midpoint of the middle two, rounded down.
pub fn median(values: &Vec<usize>) -> (r: Option<usize>)
    ensures
        match median_of(values@) {
            Some(m) => r == Some(m as usize),
            None => r is None,
        },
{
    if values.len() == 0 {
        return None;
    }
    let v = sort_counts(values);
    proof {
        vstd::seq_lib::to_multiset_len(v@);
        vstd::seq_lib::to_multiset_len(values@);
    }
    let mid = v.len() / 2;
    if v.len() % 2 == 1 {
        Some(v[mid])
    } else {
        let a = v[mid - 1];
        let b = v[mid];
        assert((count_le())(v@[mid - 1], v@[mid as int]));
        Some(a + (b - a) / 2)
    }
}

/// The lower median of a multiset of counts (`None` when empty): the
/// middle count, or the lower of the two middle ones.
pub open spec fn lower_median_of(s: Seq<usize>) -> Option<int> {
    if s.len() == 0 {
        None
    } else {
        Some(sorted_counts(s)[(s.len() - 1) / 2] as int)
    }
}

/// The median headline count per file (`None` for a vault with no
/// files): an integer, the lower middle one for an even number of files.
pub fn median_headlines_per_path(counts: &Vec<usize>) -> (r: Option<usize>)
    ensures
        match lower_median_of(counts@) {
            Some(m) => r == Some(m as usize),
            None => r is None,
        },
{
    if counts.len() == 0 {
        return None;
    }
    let v = sort_counts(counts);
    proof {
        vstd::seq_lib::to_multiset_len(v@);
        vstd::seq_lib::to_multiset_len(counts@);
    }
    Some(v[(v.len() - 1) / 2])
}

/// Integer mean: `total / n`, `0` when `n` is zero.
pub fn mean(total: usize, n: usize) -> (r: usize)
    ensures
        n == 0 ==> r == 0,
        n > 0 ==> r == total / n,
{
    match total.checked_div(n) {
        Some(q) => q,
        None => 0,
    }
}

/// Integer percentage `part * 100 / whole`, `0` when `whole` is zero.
pub fn pct(part: usize, whole: usize) -> (r: usize)
    requires
        part * 100 <= usize::MAX,
    ensures
        whole == 0 ==> r == 0,
        whole > 0 ==> r == (part * 100) / whole as int,
{
    match (part * 100).checked_div(whole) {
        Some(q) => q,
        None => 0,
    }
}

/// Sum of the counts.
pub fn total(values: &Vec<usize>) -> (r: usize)
    requires
        sum_of(values@) <= usize::MAX,
    ensures
        r == sum_of(values@),
{
    let mut acc: usize = 0;
    let mut i: usize = 0;
    while i < values.len()
        invariant
            i <= values.len(),
            sum_of(values@) <= usize::MAX,
            acc == sum_of(values@.take(i as int)),
        decreases values.len() - i,
    {
        assert(values@.take(i + 1).drop_last() =~= values@.take(i as int));
        proof {
            lemma_sum_prefix(values@, i + 1);
        }
        acc = acc + values[i];
        i = i + 1;
    }
    assert(values@.take(i as int) =~= values@);
    acc
}

/// A prefix sums to no more than the whole.
pub proof fn lemma_sum_prefix(s: Seq<usize>, k: int)
    requires
        0 <= k <= s.len(),
    ensures
        sum_of(s.take(k)) <= sum_of(s),
    decreases s.len() - k,
{
    if k < s.len() {
        lemma_sum_prefix(s, k + 1);
        assert(s.take(k + 1).drop_last() =~= s.take(k));
    } else {
        assert(s.take(k) =~= s);
    }
}

/// The largest count, if any.
pub open spec fn is_max_of(s: Seq<usize>, m: usize) -> bool {
    s.contains(m) && forall|i: int| 0 <= i < s.len() ==> #[trigger] s[i] <= m
}

/// The smallest count, if any.
pub open spec fn is_min_of(s: Seq<usize>, m: usize) -> bool {
    s.contains(m) && forall|i: int| 0 <= i < s.len() ==> #[trigger] s[i] >= m
}

/// The largest count (`None` when there are none).
pub fn max_value(values: &Vec<usize>) -> (r: Option<usize>)
    ensures
        values@.len() == 0 ==> r is None,
        values@.len() > 0 ==> (r matches Some(m) && is_max_of(values@, m)),
{
    if values.len() == 0 {
        return None;
    }
    let mut best = values[0];
    let mut i: usize = 1;
    assert(values@.take(1)[0] == best);
    while i < values.len()
        invariant
            1 <= i <= values.len(),
            values@.take(i as int).contains(best),
            forall|j: int| 0 <= j < i ==> #[trigger] values@[j] <= best,
        decreases values.len() - i,
    {
        if values[i] > best {
            best = values[i];
            assert(values@.take(i + 1)[i as int] == best);
        } else {
            let ghost k = choose|k: int| 0 <= k < i && values@.take(i as int)[k] == best;
            assert(values@.take(i + 1)[k] == best);
        }
        i = i + 1;
    }
    assert(values@.take(i as int) =~= values@);
    Some(best)
}

/// The smallest count (`None` when there are none).
pub fn min_value(values: &Vec<usize>) -> (r: Option<usize>)
    ensures
        values@.len() == 0 ==> r is None,
        values@.len() > 0 ==> (r matches Some(m) && is_min_of(values@, m)),
{
    if values.len() == 0 {
        return None;
    }
    let mut best = values[0];
    let mut i: usize = 1;
    assert(values@.take(1)[0] == best);
    while i < values.len()
        invariant
            1 <= i <= values.len(),
            values@.take(i as int).contains(best),
            forall|j: int| 0 <= j < i ==> #[trigger] values@[j] >= best,
        decreases values.len() - i,
    {
        if values[i] < best {
            best = values[i];
            assert(values@.take(i + 1)[i as int] == best);
        } else {
            let ghost k = choose|k: int| 0 <= k < i && values@.take(i as int)[k] == best;
            assert(values@.take(i + 1)[k] == best);
        }
        i = i + 1;
    }
    assert(values@.take(i as int) =~= values@);
    Some(best)
}

/// `h` is the histogram of `s`: its distinct values in ascending order,
/// each with the number of times it occurs.
pub open spec fn is_histogram_of(h: Seq<(usize, usize)>, s: Seq<usize>) -> bool {
    &&& forall|i: int, j: int| 0 <= i < j < h.len() ==> #[trigger] h[i].0 < #[trigger] h[j].0
    &&& forall|i: int|
        0 <= i < h.len() ==> #[trigger] h[i].1 == s.to_multiset().count(h[i].0) && h[i].1 > 0
    &&& forall|x: usize| s.contains(x) ==> exists|i: int| 0 <= i < h.len() && #[trigger] h[i].0 == x
}

/// Histogram of the counts: each distinct value, ascending, with how
/// often it occurs.
pub fn histogram(values: &Vec<usize>) -> (h: Vec<(usize, usize)>)
    ensures
        is_histogram_of(h@, values@),
{
    let mut h: Vec<(usize, usize)> = Vec::new();
    let mut i: usize = 0;
    while i < values.len()
        invariant
            i <= values.len(),
            is_histogram_of(h@, values@.take(i as int)),
            h@.len() <= i,
        decreases values.len() - i,
    {
        let x = values[i];
        let ghost pre = values@.take(i as int);
        let ghost post = values@.take(i + 1);
        assert(post =~= pre.push(x));
        assert(post.to_multiset() == pre.to_multiset().insert(x));
        let mut pos: usize = 0;
        while pos < h.len() && h[pos].0 < x
            invariant
                pos <= h.len(),
                forall|j: int| 0 <= j < pos ==> #[trigger] h@[j].0 < x,
            decreases h.len() - pos,
        {
            pos = pos + 1;
        }
        let ghost old_h = h@;
        if pos < h.len() && h[pos].0 == x {
            let c = h[pos].1;
            proof {
                vstd::seq_lib::to_multiset_len(pre);
                assert(c == pre.to_multiset().count(x));
                assert(pre.to_multiset().count(x) <= pre.to_multiset().len());
            }
            h.set(pos, (x, c + 1));
            proof {
                assert forall|k: int| 0 <= k < h@.len() implies #[trigger] h@[k].1
                    == post.to_multiset().count(h@[k].0) && h@[k].1 > 0 by {
                    if k != pos {
                        assert(h@[k] == old_h[k]);
                        assert(old_h[k].0 != x);
                    }
                }
                assert forall|y: usize| post.contains(y) implies exists|k: int|
                    0 <= k < h@.len() && #[trigger] h@[k].0 == y by {
                    if y == x {
                        assert(h@[pos as int].0 == y);
                    } else {
                        let j = choose|j: int| 0 <= j < post.len() && post[j] == y;
                        assert(pre[j] == y);
                        assert(pre.contains(y));
                        let k = choose|k: int| 0 <= k < old_h.len() && #[trigger] old_h[k].0 == y;
                        assert(h@[k].0 == y);
                    }
                }
                assert forall|a: int, b: int| 0 <= a < b < h@.len() implies #[trigger] h@[a].0
                    < #[trigger] h@[b].0 by {
                    assert(old_h[a].0 < old_h[b].0);
                }
            }
        } else {
            proof {
                assert(!pre.contains(x)) by {
                    if pre.contains(x) {
                        let k = choose|k: int| 0 <= k < old_h.len() && #[trigger] old_h[k].0 == x;
                        if k < pos {
                            assert(old_h[k].0 < x);
                        } else if k > pos {
                            assert(old_h[pos as int].0 < old_h[k].0);
                        }
                    }
                }
                assert(pre.to_multiset().count(x) == 0);
            }
            h.insert(pos, (x, 1));
            proof {
                assert forall|k: int| 0 <= k < h@.len() implies #[trigger] h@[k].1
                    == post.to_multiset().count(h@[k].0) && h@[k].1 > 0 by {
                    if k < pos {
                        assert(h@[k] == old_h[k]);
                    } else if k > pos {
                        assert(h@[k] == old_h[k - 1]);
                        assert(old_h[k - 1].0 > x || old_h[k - 1].0 < x);
                    }
                }
                assert forall|y: usize| post.contains(y) implies exists|k: int|
                    0 <= k < h@.len() && #[trigger] h@[k].0 == y by {
                    if y == x {
                        assert(h@[pos as int].0 == y);
                    } else {
                        let j = choose|j: int| 0 <= j < post.len() && post[j] == y;
                        assert(pre[j] == y);
                        assert(pre.contains(y));
                        let k = choose|k: int| 0 <= k < old_h.len() && #[trigger] old_h[k].0 == y;
                        if k < pos {
                            assert(h@[k].0 == y);
                        } else {
                            assert(h@[k + 1].0 == y);
                        }
                    }
                }
                assert forall|a: int, b: int| 0 <= a < b < h@.len() implies #[trigger] h@[a].0
                    < #[trigger] h@[b].0 by {
                    if a < pos && b < pos {
                        assert(old_h[a].0 < old_h[b].0);
                    } else if a < pos && b == pos {
                    } else if a < pos {
                        assert(h@[b] == old_h[b - 1]);
                        if pos < old_h.len() {
                            assert(old_h[a].0 < old_h[pos as int].0 || a == pos);
                        }
                    } else if a == pos {
                        assert(h@[b] == old_h[b - 1]);
                        if b - 1 > pos {
                            assert(old_h[pos as int].0 < old_h[b - 1].0);
                        }
                    } else {
                        assert(old_h[a - 1].0 < old_h[b - 1].0);
                    }
                }
            }
        }
        i = i + 1;
    }
    assert(values@.take(i as int) =~= values@);
    h
}

/// `k` is a most frequent count of `s`, the lowest one among equally
/// frequent counts.
pub open spec fn is_mode_of(s: Seq<usize>, k: usize) -> bool {
    &&& s.contains(k)
    &&& forall|x: usize| #[trigger]
        s.contains(x) ==> s.to_multiset().count(x) <= s.to_multiset().count(k)
    &&& forall|x: usize|
        #[trigger] s.contains(x) && s.to_multiset().count(x) == s.to_multiset().count(k) ==> k <= x
}

/// Most common count (lowest wins ties), `None` when there are none.
pub fn mode(values: &Vec<usize>) -> (r: Option<usize>)
    ensures
        values@.len() == 0 ==> r is None,
        values@.len() > 0 ==> (r matches Some(k) && is_mode_of(values@, k)),
{
    let h = histogram(values);
    if h.len() == 0 {
        proof {
            if values@.len() > 0 {
                assert(values@.contains(values@[0]));
            }
        }
        return None;
    }
    let mut best: usize = 0;
    let mut i: usize = 1;
    while i < h.len()
        invariant
            1 <= i <= h.len(),
            best < i,
            is_histogram_of(h@, values@),
            forall|j: int| 0 <= j < i ==> #[trigger] h@[j].1 <= h@[best as int].1,
            forall|j: int| 0 <= j < best ==> #[trigger] h@[j].1 < h@[best as int].1,
        decreases h.len() - i,
    {
        if h[i].1 > h[best].1 {
            best = i;
        }
        i = i + 1;
    }
    let k = h[best].0;
    proof {
        assert(values@.to_multiset().count(k) > 0);
        assert(values@.contains(k));
        assert forall|x: usize| #[trigger] values@.contains(x) implies values@.to_multiset().count(x)
            <= values@.to_multiset().count(k) && (values@.to_multiset().count(x)
            == values@.to_multiset().count(k) ==> k <= x) by {
            let j = choose|j: int| 0 <= j < h@.len() && #[trigger] h@[j].0 == x;
            assert(h@[j].1 <= h@[best as int].1);
            if j < best {
                assert(h@[j].1 < h@[best as int].1);
            } else if j > best {
                assert(h@[best as int].0 < h@[j].0);
            }
        }
    }
    Some(k)
}

/// The median depends only on which counts there are, not on the
/// order the files were walked in.
pub proof fn law_median_ignores_order(s1: Seq<usize>, s2: Seq<usize>)
    requires
        s1.to_multiset() == s2.to_multiset(),
    ensures
        median_of(s1) == median_of(s2),
{
    lemma_count_le_total();
    s1.lemma_sort_by_ensures(count_le());
    s2.lemma_sort_by_ensures(count_le());
    vstd::seq_lib::lemma_sorted_unique(sorted_counts(s1), sorted_counts(s2), count_le());
    vstd::seq_lib::to_multiset_len(s1);
    vstd::seq_lib::to_multiset_len(s2);
}

/// The median lies between the smallest and the largest count.
pub proof fn law_median_between_min_and_max(s: Seq<usize>, lo: usize, hi: usize)
    requires
        is_min_of(s, lo),
        is_max_of(s, hi),
    ensures
        median_of(s) matches Some(m) && lo <= m <= hi,
{
    lemma_count_le_total();
    s.lemma_sort_by_ensures(count_le());
    let t = sorted_counts(s);
    vstd::seq_lib::to_multiset_len(s);
    vstd::seq_lib::to_multiset_len(t);
    assert forall|i: int| 0 <= i < t.len() implies lo <= #[trigger] t[i] <= hi by {
        assert(t.contains(t[i]));
        assert(t.to_multiset().count(t[i]) > 0);
        assert(s.to_multiset().count(t[i]) > 0);
        assert(s.contains(t[i]));
        let j = choose|j: int| 0 <= j < s.len() && s[j] == t[i];
        assert(s[j] <= hi && s[j] >= lo);
    }
    let mid = t.len() / 2;
    assert(lo <= t[mid as int] <= hi);
    if t.len() % 2 == 0 {
        assert(lo <= t[mid - 1] <= hi);
    }
}

/// The integer mean is the largest `q` with `q * n <= total`.
pub proof fn law_mean_bounds(total: usize, n: usize)
    requires
        n > 0,
    ensures
        (total / n) * n <= total < (total / n + 1) * n,
{
    let q = total as int / n as int;
    let r = total as int % n as int;
    vstd::arithmetic::div_mod::lemma_fundamental_div_mod(total as int, n as int);
    assert(total as int == n * q + r);
    assert(0 <= r < n);
    assert(q * n == n * q) by (nonlinear_arith);
    assert((q + 1) * n == q * n + n) by (nonlinear_arith);
}

} // verus!
