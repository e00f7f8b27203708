use vstd::prelude::*;

use crate::query::{QueryResult, QueryResultView};
use crate::views::{lemma_views_remove_first, views};

verus! {

broadcast use vstd::seq_lib::group_seq_properties;

/// The sign bit of an IEEE-754 binary64 bit pattern.
pub const SIGN_BIT: u64 = 0x8000_0000_0000_0000;

/// The bit pattern of positive infinity: exponent all ones, mantissa zero.
pub const INFINITY_BITS: u64 = 0x7ff0_0000_0000_0000;

/// The magnitude bits of a binary64 bit pattern (all but the sign bit).
pub open spec fn magnitude(d: u64) -> int {
    if d < SIGN_BIT {
        d as int
    } else {
        d - SIGN_BIT
    }
}

/// The bit pattern `d` encodes NaN: exponent all ones, mantissa not zero.
pub open spec fn is_nan_distance(d: u64) -> bool {
    magnitude(d) > INFINITY_BITS
}

/// Where the value encoded by `d` lies on the number line. Binary64
/// values other than NaN are ordered by sign and magnitude, so two such
/// values compare as their positions do; +0 and -0 share position 0.
pub open spec fn distance_position(d: u64) -> int {
    if d < SIGN_BIT {
        d as int
    } else {
        SIGN_BIT - d
    }
}

/// The sort key of a search candidate.
pub open spec fn rank_key(r: QueryResultView) -> int {
    distance_position(r.distance)
}

/// The plain values of a sequence of search candidates.
pub open spec fn result_views(s: Seq<QueryResult>) -> Seq<QueryResultView> {
    views(s)
}

/// Two candidates can be ordered by distance: neither distance is NaN.
pub open spec fn comparable(s: Seq<QueryResultView>) -> bool {
    s.len() < 2 || forall|i: int| 0 <= i < s.len() ==> !is_nan_distance(#[trigger] s[i].distance)
}

/// `t` with `x` placed after every element whose key is at most that of `x`
/// and before the elements after them.
pub open spec fn insert_by_distance(t: Seq<QueryResultView>, x: QueryResultView) -> Seq<QueryResultView>
    decreases t.len(),
{
    if t.len() == 0 {
        seq![x]
    } else if rank_key(x) < rank_key(t.last()) {
        insert_by_distance(t.drop_last(), x).push(t.last())
    } else {
        t.push(x)
    }
}

/// `s` sorted by ascending distance; candidates at the same distance keep
/// their order in `s`.
pub open spec fn sort_by_distance(s: Seq<QueryResultView>) -> Seq<QueryResultView>
    decreases s.len(),
{
    if s.len() == 0 {
        Seq::empty()
    } else {
        insert_by_distance(sort_by_distance(s.drop_last()), s.last())
    }
}

/// The first `k` candidates of `s` in order of ascending distance.
pub open spec fn ranked(s: Seq<QueryResultView>, k: usize) -> Seq<QueryResultView> {
    let sorted = sort_by_distance(s);
    if k < sorted.len() {
        sorted.take(k as int)
    } else {
        sorted
    }
}

/// `s` is in order of ascending distance.
pub open spec fn sorted_by_distance(s: Seq<QueryResultView>) -> bool {
    forall|i: int, j: int| 0 <= i <= j < s.len() ==> rank_key(#[trigger] s[i]) <= rank_key(#[trigger] s[j])
}

/// The candidates of `s` at distance position `p`, in their order in `s`.
pub open spec fn at_position(s: Seq<QueryResultView>, p: int) -> Seq<QueryResultView> {
    s.filter(|r: QueryResultView| rank_key(r) == p)
}

/// Whether the distance encoded by `a` is at most the one encoded by `b`.
pub fn distance_le(a: u64, b: u64) -> (r: bool)
    ensures
        r == (distance_position(a) <= distance_position(b)),
{
    if a < SIGN_BIT {
        if b < SIGN_BIT {
            a <= b
        } else {
            a == 0 && b == SIGN_BIT
        }
    } else {
        if b < SIGN_BIT {
            true
        } else {
            a >= b
        }
    }
}

/// Whether the bit pattern `d` encodes NaN.
pub fn is_nan(d: u64) -> (r: bool)
    ensures
        r == is_nan_distance(d),
{
    let m = if d < SIGN_BIT {
        d
    } else {
        d - SIGN_BIT
    };
    m > INFINITY_BITS
}

/// Whether the candidates can be put in order of distance: fewer than two
/// candidates, or none at a NaN distance.
pub fn has_comparable_distances(results: &Vec<QueryResult>) -> (r: bool)
    ensures
        r == comparable(result_views(results@)),
{
    if results.len() < 2 {
        return true;
    }
    let mut i: usize = 0;
    while i < results.len()
        invariant
            2 <= results.len(),
            i <= results.len(),
            forall|j: int| 0 <= j < i ==> !is_nan_distance(#[trigger] results@[j].distance),
        decreases results.len() - i,
    {
        if is_nan(results[i].distance) {
            assert(result_views(results@)[i as int].distance == results@[i as int].distance);
            assert(result_views(results@).len() == results@.len());
            return false;
        }
        i = i + 1;
    }
    assert forall|j: int| 0 <= j < results.len() implies !is_nan_distance(#[trigger] result_views(results@)[j].distance) by {
        assert(result_views(results@)[j].distance == results@[j].distance);
    }
    true
}

/// Inserting `x` at a position `j` before which every key is at most that
/// of `x`, and from which every key exceeds it, is `insert_by_distance`.
proof fn lemma_insert_at(t: Seq<QueryResultView>, x: QueryResultView, j: int)
    requires
        0 <= j <= t.len(),
        j == 0 || rank_key(t[j - 1]) <= rank_key(x),
        forall|m: int| j <= m < t.len() ==> rank_key(x) < rank_key(#[trigger] t[m]),
    ensures
        insert_by_distance(t, x) == t.insert(j, x),
    decreases t.len(),
{
    if t.len() == 0 {
        assert(t.insert(j, x) =~= seq![x]);
    } else if j == t.len() {
        assert(t.insert(j, x) =~= t.push(x));
    } else {
        assert(rank_key(x) < rank_key(t.last()));
        lemma_insert_at(t.drop_last(), x, j);
        assert(t.drop_last().insert(j, x).push(t.last()) =~= t.insert(j, x));
    }
}

/// In a sorted sequence, the keys up to that of `x` come first.
proof fn lemma_split(t: Seq<QueryResultView>, x: QueryResultView) -> (j: int)
    requires
        sorted_by_distance(t),
    ensures
        0 <= j <= t.len(),
        forall|m: int| 0 <= m < j ==> rank_key(#[trigger] t[m]) <= rank_key(x),
        forall|m: int| j <= m < t.len() ==> rank_key(x) < rank_key(#[trigger] t[m]),
    decreases t.len(),
{
    if t.len() == 0 {
        0
    } else if rank_key(t.last()) <= rank_key(x) {
        assert forall|m: int| 0 <= m < t.len() implies rank_key(#[trigger] t[m]) <= rank_key(x) by {
            assert(rank_key(t[m]) <= rank_key(t[t.len() - 1]));
        }
        t.len() as int
    } else {
        let j = lemma_split(t.drop_last(), x);
        assert forall|m: int| j <= m < t.len() implies rank_key(x) < rank_key(#[trigger] t[m]) by {
            if m < t.len() - 1 {
                assert(t[m] == t.drop_last()[m]);
            }
        }
        assert forall|m: int| 0 <= m < j implies rank_key(#[trigger] t[m]) <= rank_key(x) by {
            assert(t[m] == t.drop_last()[m]);
        }
        j
    }
}

/// Inserting into a sorted sequence keeps it sorted, adds `x` to its
/// elements, and keeps the order of the elements at each key.
proof fn lemma_insert_sorted(t: Seq<QueryResultView>, x: QueryResultView)
    requires
        sorted_by_distance(t),
    ensures
        sorted_by_distance(insert_by_distance(t, x)),
        insert_by_distance(t, x).to_multiset() == t.to_multiset().insert(x),
        forall|p: int| #[trigger] at_position(insert_by_distance(t, x), p)
            == if rank_key(x) == p { at_position(t, p).push(x) } else { at_position(t, p) },
{
    let j = lemma_split(t, x);
    lemma_insert_at(t, x, j);
    let r = t.insert(j, x);
    assert forall|a: int, b: int| 0 <= a <= b < r.len() implies rank_key(#[trigger] r[a]) <= rank_key(#[trigger] r[b]) by {
        if a < j && b < j {
        } else if a < j && b == j {
        } else if a < j && b > j {
            assert(r[b] == t[b - 1]);
        } else if a == j && b > j {
            assert(r[b] == t[b - 1]);
        } else if a > j {
            assert(r[a] == t[a - 1]);
            assert(r[b] == t[b - 1]);
        }
    }
    let front = t.take(j);
    let back = t.skip(j);
    assert(t =~= front + back);
    assert(r =~= front.push(x) + back);
    vstd::seq_lib::lemma_multiset_commutative(front, back);
    vstd::seq_lib::lemma_multiset_commutative(front.push(x), back);
    assert forall|p: int| #[trigger] at_position(r, p)
        == if rank_key(x) == p { at_position(t, p).push(x) } else { at_position(t, p) }
    by {
        let pred = |v: QueryResultView| rank_key(v) == p;
        Seq::filter_distributes_over_add(front.push(x), back, pred);
        Seq::filter_distributes_over_add(front, back, pred);
        front.lemma_filter_push(x, pred);
        if rank_key(x) == p {
            assert forall|m: int| 0 <= m < back.len() implies !pred(#[trigger] back[m]) by {
                assert(back[m] == t[j + m]);
            }
            lemma_filter_none(back, pred);
            assert(back.filter(pred) =~= Seq::<QueryResultView>::empty());
            assert(at_position(r, p) =~= at_position(t, p).push(x));
        }
    }
}

/// Filtering a sequence none of whose elements pass gives the empty sequence.
proof fn lemma_filter_none(s: Seq<QueryResultView>, pred: spec_fn(QueryResultView) -> bool)
    requires
        forall|m: int| 0 <= m < s.len() ==> !pred(#[trigger] s[m]),
    ensures
        s.filter(pred).len() == 0,
    decreases s.len(),
{
    if s.len() > 0 {
        lemma_filter_none(s.drop_last(), pred);
        assert(s.drop_last().push(s.last()) =~= s);
        s.drop_last().lemma_filter_push(s.last(), pred);
    }
}

/// Sorting by distance gives a sequence in order of ascending distance.
pub proof fn lemma_sort_is_sorted(s: Seq<QueryResultView>)
    ensures
        sorted_by_distance(sort_by_distance(s)),
    decreases s.len(),
{
    if s.len() > 0 {
        lemma_sort_is_sorted(s.drop_last());
        lemma_insert_sorted(sort_by_distance(s.drop_last()), s.last());
    }
}

/// Sorting by distance neither adds, drops nor repeats a candidate.
pub proof fn lemma_sort_is_permutation(s: Seq<QueryResultView>)
    ensures
        sort_by_distance(s).to_multiset() == s.to_multiset(),
    decreases s.len(),
{
    if s.len() > 0 {
        lemma_sort_is_permutation(s.drop_last());
        lemma_sort_is_sorted(s.drop_last());
        lemma_insert_sorted(sort_by_distance(s.drop_last()), s.last());
        assert(s.drop_last().push(s.last()) =~= s);
        vstd::seq_lib::to_multiset_build(s.drop_last(), s.last());
    }
}

/// Sorting by distance is stable: the candidates at any one distance keep
/// the order they had before sorting.
pub proof fn lemma_sort_is_stable(s: Seq<QueryResultView>, p: int)
    ensures
        at_position(sort_by_distance(s), p) == at_position(s, p),
    decreases s.len(),
{
    if s.len() > 0 {
        lemma_sort_is_stable(s.drop_last(), p);
        lemma_sort_is_sorted(s.drop_last());
        lemma_insert_sorted(sort_by_distance(s.drop_last()), s.last());
        assert(s.drop_last().push(s.last()) =~= s);
        s.drop_last().lemma_filter_push(s.last(), |r: QueryResultView| rank_key(r) == p);
    }
}

proof fn lemma_insert_len(t: Seq<QueryResultView>, x: QueryResultView)
    ensures
        insert_by_distance(t, x).len() == t.len() + 1,
    decreases t.len(),
{
    if t.len() > 0 && rank_key(x) < rank_key(t.last()) {
        lemma_insert_len(t.drop_last(), x);
    }
}

proof fn lemma_sort_len(s: Seq<QueryResultView>)
    ensures
        sort_by_distance(s).len() == s.len(),
    decreases s.len(),
{
    if s.len() > 0 {
        lemma_sort_len(s.drop_last());
        lemma_insert_len(sort_by_distance(s.drop_last()), s.last());
    }
}

/// The ranking of `s` keeps `k` candidates, or all of them when there are
/// fewer, in order of ascending distance, and each comes from `s`.
pub proof fn lemma_ranked(s: Seq<QueryResultView>, k: usize)
    ensures
        ranked(s, k).len() == if k < s.len() { k as int } else { s.len() as int },
        sorted_by_distance(ranked(s, k)),
        forall|i: int| 0 <= i < ranked(s, k).len() ==> s.contains(#[trigger] ranked(s, k)[i]),
{
    lemma_sort_len(s);
    lemma_sort_is_sorted(s);
    lemma_sort_is_permutation(s);
    let t = sort_by_distance(s);
    assert forall|i: int| 0 <= i < ranked(s, k).len() implies s.contains(#[trigger] ranked(s, k)[i]) by {
        assert(ranked(s, k)[i] == t[i]);
        assert(t.to_multiset().count(t[i]) > 0);
        assert(s.to_multiset().count(t[i]) > 0);
    }
}

/// Distances are ordered as the binary64 values their bit patterns encode:
/// among non-negative values (sign bit clear) a larger bit pattern is a
/// larger value; among negative ones a larger bit pattern is a smaller
/// value; every negative value lies below every non-negative one, except
/// that -0 and +0 are equal.
pub proof fn lemma_distance_order(a: u64, b: u64)
    ensures
        a < SIGN_BIT && b < SIGN_BIT ==> (distance_position(a) < distance_position(b) <==> a < b),
        a < SIGN_BIT && b < SIGN_BIT ==> (distance_position(a) == distance_position(b) <==> a == b),
        a >= SIGN_BIT && b >= SIGN_BIT ==> (distance_position(a) < distance_position(b) <==> a > b),
        a >= SIGN_BIT && b >= SIGN_BIT ==> (distance_position(a) == distance_position(b) <==> a == b),
        a < SIGN_BIT && b >= SIGN_BIT ==> distance_position(b) <= distance_position(a),
        a < SIGN_BIT && b >= SIGN_BIT ==> (distance_position(a) == distance_position(b) <==> a == 0 && b == SIGN_BIT),
{
}

/// Ranked candidates at non-negative distances come in order of ascending
/// distance bit pattern, which for such distances is ascending value.
pub proof fn lemma_ranked_nonnegative_ascending(s: Seq<QueryResultView>, k: usize)
    requires
        forall|i: int| 0 <= i < s.len() ==> (#[trigger] s[i]).distance < SIGN_BIT,
    ensures
        forall|i: int, j: int| 0 <= i <= j < ranked(s, k).len() ==>
            (#[trigger] ranked(s, k)[i]).distance <= (#[trigger] ranked(s, k)[j]).distance,
{
    lemma_ranked(s, k);
    let r = ranked(s, k);
    assert forall|i: int, j: int| 0 <= i <= j < r.len() implies (#[trigger] r[i]).distance <= (#[trigger] r[j]).distance by {
        assert(s.contains(r[i]));
        assert(s.contains(r[j]));
        let x = choose|x: int| 0 <= x < s.len() && s[x] == r[i];
        let y = choose|y: int| 0 <= y < s.len() && s[y] == r[j];
        assert(s[x].distance < SIGN_BIT);
        assert(s[y].distance < SIGN_BIT);
        assert(rank_key(r[i]) <= rank_key(r[j]));
    }
}

/// Candidates can be ordered exactly when there are fewer than two or no
/// distance is NaN, that is, no distance has an all-ones exponent field with
/// a non-zero mantissa. Any other distance, zero and the infinities
/// included, compares.
pub proof fn lemma_comparable_exactly_without_nan(s: Seq<QueryResultView>)
    ensures
        comparable(s) <==> (s.len() < 2 || forall|i: int| 0 <= i < s.len() ==>
            (#[trigger] s[i]).distance % SIGN_BIT <= 0x7ff0_0000_0000_0000u64),
{
    assert forall|i: int| 0 <= i < s.len() implies
        (is_nan_distance((#[trigger] s[i]).distance) <==> s[i].distance % SIGN_BIT > 0x7ff0_0000_0000_0000u64)
    by {
        let d = s[i].distance;
        if d < SIGN_BIT {
            assert(d % SIGN_BIT == d);
        } else {
            assert(d % SIGN_BIT == d - SIGN_BIT);
        }
    }
}

/// Puts the candidates in order of ascending distance, candidates at equal
/// distances keeping their order, and keeps the first `k`.
pub fn rank_results(results: Vec<QueryResult>, k: usize) -> (r: Vec<QueryResult>)
    requires
        comparable(result_views(results@)),
    ensures
        result_views(r@) == ranked(result_views(results@), k),
{
    let ghost s = result_views(results@);
    let n = results.len();
    let mut input = results;
    let mut out: Vec<QueryResult> = Vec::new();
    let mut i: usize = 0;
    while i < n
        invariant
            n == s.len(),
            i <= n,
            result_views(input@) == s.skip(i as int),
            result_views(out@) == sort_by_distance(s.take(i as int)),
            out.len() == i,
        decreases n - i,
    {
        proof {
            lemma_sort_is_sorted(s.take(i as int));
        }
        let ghost before = out@;
        assert(result_views(input@)[0] == s[i as int]);
        assert(input@.len() == result_views(input@).len());
        let ghost old_in = input@;
        let x = input.remove(0);
        proof {
            lemma_views_remove_first(old_in, input@);
            assert(result_views(input@) =~= s.skip(i + 1));
        }
        let mut j: usize = out.len();
        loop
            invariant
                out@ == before,
                j <= out.len(),
                forall|m: int| j <= m < out.len() ==> rank_key(x@) < rank_key(#[trigger] result_views(out@)[m]),
            ensures
                j <= out.len(),
                j == 0 || rank_key(result_views(out@)[j - 1]) <= rank_key(x@),
                forall|m: int| j <= m < out.len() ==> rank_key(x@) < rank_key(#[trigger] result_views(out@)[m]),
            decreases j,
        {
            if j == 0 {
                break;
            }
            let le = distance_le(out[j - 1].distance, x.distance);
            assert(result_views(out@)[j - 1].distance == out@[j - 1].distance);
            if le {
                break;
            }
            j = j - 1;
        }
        let ghost t = result_views(out@);
        proof {
            lemma_insert_at(t, x@, j as int);
        }
        out.insert(j, x);
        proof {
            assert(result_views(out@) =~= t.insert(j as int, x@));
            assert(s.take(i + 1).drop_last() =~= s.take(i as int));
            assert(s.take(i + 1).last() == s[i as int]);
        }
        i = i + 1;
    }
    proof {
        assert(s.take(n as int) =~= s);
    }
    if k < out.len() {
        out.truncate(k);
        proof {
            assert(result_views(out@) =~= sort_by_distance(s).take(k as int));
        }
    }
    out
}

} // verus!
