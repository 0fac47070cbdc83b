//! Ordering peaks by score, highest first, peaks of one rank keeping their
//! order.

use core::cmp::Ordering;
use vstd::prelude::*;
use crate::binary32::{rank, rank_of};
use crate::grid::RawPeak;

verus! {

/// Ranks never rise from one peak to the next.
pub open spec fn descending(s: Seq<RawPeak>) -> bool {
    forall|i: int, j: int| 0 <= i < j < s.len() ==> rank(s[i].score) >= rank(s[j].score)
}

/// The peaks of `s` whose score has rank `k`, in their order.
pub open spec fn with_rank(s: Seq<RawPeak>, k: int) -> Seq<RawPeak>
    decreases s.len(),
{
    if s.len() == 0 {
        s
    } else {
        let rest = with_rank(s.drop_last(), k);
        if rank(s.last().score) == k {
            rest.push(s.last())
        } else {
            rest
        }
    }
}

/// `r` is `s` sorted by a stable sort: ranks descend, and the peaks of each
/// rank are those of `s` in the order they have there.
pub open spec fn stably_sorted(r: Seq<RawPeak>, s: Seq<RawPeak>) -> bool {
    &&& descending(r)
    &&& forall|k: int| #[trigger] with_rank(r, k) == with_rank(s, k)
}

/// `s` with `p` put behind every peak that ranks at least as high.
pub open spec fn insert_desc(s: Seq<RawPeak>, p: RawPeak) -> Seq<RawPeak>
    decreases s.len(),
{
    if s.len() == 0 {
        seq![p]
    } else if rank(s.last().score) >= rank(p.score) {
        s.push(p)
    } else {
        insert_desc(s.drop_last(), p).push(s.last())
    }
}

/// The peaks of `s` by descending rank; among peaks of one rank the earlier
/// one of `s` comes first.
pub open spec fn sorted_desc(s: Seq<RawPeak>) -> Seq<RawPeak>
    decreases s.len(),
{
    if s.len() == 0 {
        s
    } else {
        insert_desc(sorted_desc(s.drop_last()), s.last())
    }
}

/// Inserting a peak keeps the length plus one and the order of ranks.
pub proof fn lemma_insert_desc(s: Seq<RawPeak>, p: RawPeak)
    requires
        descending(s),
    ensures
        insert_desc(s, p).len() == s.len() + 1,
        descending(insert_desc(s, p)),
        forall|i: int|
            0 <= i < insert_desc(s, p).len() ==> #[trigger] insert_desc(s, p)[i] == p || exists|
                j: int,
            |
                0 <= j < s.len() && s[j] == insert_desc(s, p)[i],
    decreases s.len(),
{
    let r = insert_desc(s, p);
    if s.len() == 0 {
    } else if rank(s.last().score) >= rank(p.score) {
        assert forall|i: int| 0 <= i < r.len() implies #[trigger] r[i] == p || exists|j: int|
            0 <= j < s.len() && s[j] == r[i] by {
            if i < s.len() {
                assert(s[i] == r[i]);
            }
        }
    } else {
        let t = s.drop_last();
        let u = insert_desc(t, p);
        assert(descending(t));
        lemma_insert_desc(t, p);
        assert forall|i: int| 0 <= i < r.len() implies #[trigger] r[i] == p || exists|j: int|
            0 <= j < s.len() && s[j] == r[i] by {
            if i < u.len() {
                assert(r[i] == u[i]);
                if u[i] != p {
                    let j = choose|j: int| 0 <= j < t.len() && t[j] == u[i];
                    assert(s[j] == r[i]);
                }
            } else {
                assert(s[s.len() - 1] == r[i]);
            }
        }
        assert forall|i: int, j: int| 0 <= i < j < r.len() implies rank(r[i].score) >= rank(
            r[j].score,
        ) by {
            if j < u.len() {
                assert(r[i] == u[i] && r[j] == u[j]);
            } else {
                assert(r[j] == s.last());
                assert(r[i] == u[i]);
                if u[i] != p {
                    let m = choose|m: int| 0 <= m < t.len() && t[m] == u[i];
                    assert(s[m] == u[i]);
                }
            }
        }
    }
}

/// What inserting a peak does to the peaks of one rank.
pub proof fn lemma_insert_desc_with_rank(s: Seq<RawPeak>, p: RawPeak, k: int)
    ensures
        with_rank(insert_desc(s, p), k) == (if rank(p.score) == k {
            with_rank(s, k).push(p)
        } else {
            with_rank(s, k)
        }),
    decreases s.len(),
{
    let r = insert_desc(s, p);
    if s.len() == 0 {
        assert(r.drop_last() =~= s);
    } else if rank(s.last().score) >= rank(p.score) {
        assert(r.drop_last() =~= s);
    } else {
        let t = s.drop_last();
        lemma_insert_desc_with_rank(t, p, k);
        assert(r.drop_last() =~= insert_desc(t, p));
    }
}

/// `sorted_desc(s)` is `s` sorted by a stable sort.
pub proof fn lemma_sorted_desc_is_stable(s: Seq<RawPeak>)
    ensures
        stably_sorted(sorted_desc(s), s),
        sorted_desc(s).len() == s.len(),
    decreases s.len(),
{
    if s.len() == 0 {
    } else {
        let t = s.drop_last();
        lemma_sorted_desc_is_stable(t);
        lemma_insert_desc(sorted_desc(t), s.last());
        assert forall|k: int| #[trigger] with_rank(sorted_desc(s), k) == with_rank(s, k) by {
            lemma_insert_desc_with_rank(sorted_desc(t), s.last(), k);
            assert(with_rank(sorted_desc(t), k) == with_rank(t, k));
        }
    }
}

/// Every peak of `r` is a peak of `s`.
pub open spec fn drawn_from(r: Seq<RawPeak>, s: Seq<RawPeak>) -> bool {
    forall|i: int| 0 <= i < r.len() ==> s.contains(#[trigger] r[i])
}

/// Sorting brings no peak in that was not there.
pub proof fn lemma_sorted_desc_drawn(s: Seq<RawPeak>)
    ensures
        drawn_from(sorted_desc(s), s),
    decreases s.len(),
{
    if s.len() > 0 {
        let t = s.drop_last();
        lemma_sorted_desc_drawn(t);
        lemma_sorted_desc_is_stable(t);
        lemma_insert_desc(sorted_desc(t), s.last());
        let r = sorted_desc(s);
        assert forall|i: int| 0 <= i < r.len() implies s.contains(#[trigger] r[i]) by {
            if r[i] == s.last() {
                assert(s[s.len() - 1] == r[i]);
            } else {
                let j = choose|j: int| 0 <= j < sorted_desc(t).len() && sorted_desc(t)[j] == r[i];
                assert(t.contains(sorted_desc(t)[j]));
                let m = choose|m: int| 0 <= m < t.len() && t[m] == r[i];
                assert(s[m] == r[i]);
            }
        }
    }
}

/// A peak among those of rank `k` is a peak of the sequence, of that rank.
pub proof fn lemma_with_rank_member(s: Seq<RawPeak>, k: int)
    requires
        with_rank(s, k).len() > 0,
    ensures
        exists|i: int| 0 <= i < s.len() && rank(#[trigger] s[i].score) == k,
    decreases s.len(),
{
    if s.len() > 0 {
        if rank(s.last().score) == k {
            assert(rank(s[s.len() - 1].score) == k);
        } else {
            lemma_with_rank_member(s.drop_last(), k);
            let i = choose|i: int|
                0 <= i < s.drop_last().len() && rank(#[trigger] s.drop_last()[i].score) == k;
            assert(rank(s[i].score) == k);
        }
    }
}

/// Two descending sequences with the same peaks of every rank, in the same
/// order, are the same sequence.
pub proof fn lemma_stable_order_unique(a: Seq<RawPeak>, b: Seq<RawPeak>)
    requires
        descending(a),
        descending(b),
        forall|k: int| #[trigger] with_rank(a, k) == with_rank(b, k),
    ensures
        a == b,
    decreases a.len() + b.len(),
{
    if a.len() == 0 {
        if b.len() > 0 {
            let k = rank(b.last().score);
            assert(with_rank(a, k) == with_rank(b, k));
        }
        assert(a =~= b);
    } else if b.len() == 0 {
        let k = rank(a.last().score);
        assert(with_rank(a, k) == with_rank(b, k));
    } else {
        let ka = rank(a.last().score);
        let kb = rank(b.last().score);
        assert(with_rank(a, ka) == with_rank(b, ka));
        assert(with_rank(a, kb) == with_rank(b, kb));
        if ka != kb {
            lemma_with_rank_member(b, ka);
            lemma_with_rank_member(a, kb);
            let i = choose|i: int| 0 <= i < b.len() && rank(#[trigger] b[i].score) == ka;
            let j = choose|j: int| 0 <= j < a.len() && rank(#[trigger] a[j].score) == kb;
            assert(rank(b[i].score) >= rank(b[b.len() - 1].score));
            assert(rank(a[j].score) >= rank(a[a.len() - 1].score));
        }
        assert(a.last() == with_rank(a, ka).last());
        assert(b.last() == with_rank(b, ka).last());
        let a0 = a.drop_last();
        let b0 = b.drop_last();
        assert forall|k: int| #[trigger] with_rank(a0, k) == with_rank(b0, k) by {
            assert(with_rank(a, k) == with_rank(b, k));
            if k == ka {
                assert(with_rank(a0, k) =~= with_rank(a, k).drop_last());
                assert(with_rank(b0, k) =~= with_rank(b, k).drop_last());
            }
        }
        lemma_stable_order_unique(a0, b0);
        assert(a =~= a0.push(a.last()));
        assert(b =~= b0.push(b.last()));
    }
}

/// Whatever is `s` sorted by a stable sort is `sorted_desc(s)`.
pub proof fn lemma_stable_sort_is_sorted_desc(r: Seq<RawPeak>, s: Seq<RawPeak>)
    requires
        stably_sorted(r, s),
    ensures
        r == sorted_desc(s),
{
    lemma_sorted_desc_is_stable(s);
    assert forall|k: int| #[trigger] with_rank(r, k) == with_rank(sorted_desc(s), k) by {
        assert(with_rank(r, k) == with_rank(s, k));
        assert(with_rank(sorted_desc(s), k) == with_rank(s, k));
    }
    lemma_stable_order_unique(r, sorted_desc(s));
}

/// Orders two peaks for a sort that puts the higher rank first: `Less` when
/// `a` ranks higher, `Greater` when `b` does, `Equal` on one rank.
pub fn by_score_desc(a: &RawPeak, b: &RawPeak) -> (o: Ordering)
    ensures
        o == Ordering::Less <==> rank(a.score) > rank(b.score),
        o == Ordering::Greater <==> rank(a.score) < rank(b.score),
        o == Ordering::Equal <==> rank(a.score) == rank(b.score),
{
    let ra: i64 = rank_of(a.score);
    let rb: i64 = rank_of(b.score);
    if ra > rb {
        Ordering::Less
    } else if ra < rb {
        Ordering::Greater
    } else {
        Ordering::Equal
    }
}

/// `slice::sort_by` of std with `by_score_desc`. The comparison is a total
/// order on ranks, and std documents the sort as stable: afterwards the
/// slice is ordered by the comparison and elements that compare equal keep
/// their order. That is what `stably_sorted` says.
#[verifier::external_body]
fn stable_sort(peaks: &mut Vec<RawPeak>)
    ensures
        stably_sorted(final(peaks)@, old(peaks)@),
{
    peaks.sort_by(|a, b| by_score_desc(a, b));
}

/// Sorts the peaks by descending score; peaks of one rank keep their order.
pub fn sort_by_score_desc(peaks: &mut Vec<RawPeak>)
    ensures
        final(peaks)@ == sorted_desc(old(peaks)@),
{
    let ghost before = peaks@;
    stable_sort(peaks);
    proof {
        lemma_stable_sort_is_sorted_desc(peaks@, before);
    }
}

} // verus!
