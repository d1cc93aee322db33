//! The two orders the store lists rows in: ascending by position for the
//! active board, descending by completion day for the archive — each as a
//! deterministic insertion sort at specification level, with the properties
//! the store's contracts rest on.

use vstd::prelude::*;

use vstd::seq_lib::lemma_multiset_commutative;

use crate::models::ProjectView;
use crate::models::STATUS_COMPLETED;

verus! {

/// Positions never decrease along `s`.
pub open spec fn sorted_by_position(s: Seq<ProjectView>) -> bool {
    forall|i: int, j: int| 0 <= i < j < s.len() ==> s[i].position <= s[j].position
}

/// Completion days never increase along `s`.
pub open spec fn sorted_by_completion(s: Seq<ProjectView>) -> bool {
    forall|i: int, j: int| 0 <= i < j < s.len() ==> s[i].completion_date >= s[j].completion_date
}

/// `p` placed into `q` just before the first row with a higher position —
/// after every row whose position it equals.
pub open spec fn insert_by_position(q: Seq<ProjectView>, p: ProjectView) -> Seq<ProjectView>
    decreases q.len(),
{
    if q.len() == 0 {
        seq![p]
    } else if p.position < q[0].position {
        seq![p] + q
    } else {
        seq![q[0]] + insert_by_position(q.drop_first(), p)
    }
}

/// `s` sorted by ascending position, row by row.
pub open spec fn sort_by_position(s: Seq<ProjectView>) -> Seq<ProjectView>
    decreases s.len(),
{
    if s.len() == 0 {
        Seq::empty()
    } else {
        insert_by_position(sort_by_position(s.drop_last()), s.last())
    }
}

/// `p` placed into `q` just before the first row with a lower completion
/// day — after every row whose completion day it equals.
pub open spec fn insert_by_completion(q: Seq<ProjectView>, p: ProjectView) -> Seq<ProjectView>
    decreases q.len(),
{
    if q.len() == 0 {
        seq![p]
    } else if p.completion_date > q[0].completion_date {
        seq![p] + q
    } else {
        seq![q[0]] + insert_by_completion(q.drop_first(), p)
    }
}

/// `s` sorted by descending completion day, row by row.
pub open spec fn sort_by_completion(s: Seq<ProjectView>) -> Seq<ProjectView>
    decreases s.len(),
{
    if s.len() == 0 {
        Seq::empty()
    } else {
        insert_by_completion(sort_by_completion(s.drop_last()), s.last())
    }
}

/// The completed rows of `s`, in table order.
pub open spec fn completed_rows(s: Seq<ProjectView>) -> Seq<ProjectView>
    decreases s.len(),
{
    if s.len() == 0 {
        Seq::empty()
    } else if s.last().status == STATUS_COMPLETED {
        completed_rows(s.drop_last()).push(s.last())
    } else {
        completed_rows(s.drop_last())
    }
}

/// The block of `q` that page `block` shows: everything for block 0, else
/// the `(block - 1)`-th run of ten rows (clipped at the end).
pub open spec fn page_of(q: Seq<ProjectView>, block: int) -> Seq<ProjectView> {
    if block == 0 {
        q
    } else {
        let lo = if (block - 1) * 10 < q.len() {
            (block - 1) * 10
        } else {
            q.len() as int
        };
        let hi = if lo + 10 < q.len() {
            lo + 10
        } else {
            q.len() as int
        };
        q.subrange(lo, hi)
    }
}

/// `insert_by_position` lands at the scanned-for index: given that the
/// first `k` rows of `q` have positions not above `p`'s and row `k` (if
/// any) a higher one, the insertion equals a plain `Seq::insert` at `k`.
pub proof fn lemma_insert_by_position_at(q: Seq<ProjectView>, p: ProjectView, k: int)
    requires
        0 <= k <= q.len(),
        forall|m: int| 0 <= m < k ==> (#[trigger] q[m]).position <= p.position,
        k == q.len() || q[k].position > p.position,
    ensures
        insert_by_position(q, p) =~= q.insert(k, p),
    decreases q.len(),
{
    if k == 0 {
        if q.len() == 0 {
            assert(insert_by_position(q, p) =~= q.insert(0, p));
        } else {
            assert(insert_by_position(q, p) =~= q.insert(0, p));
        }
    } else {
        let rest = q.drop_first();
        assert(q[0].position <= p.position);
        assert(forall|m: int| 0 <= m < k - 1 ==> (#[trigger] rest[m]).position <= p.position);
        lemma_insert_by_position_at(rest, p, k - 1);
        assert(insert_by_position(q, p) == seq![q[0]] + insert_by_position(rest, p));
        assert(insert_by_position(q, p) =~= q.insert(k, p));
    }
}

/// Inserting into a position-sorted sequence keeps it sorted.
pub proof fn lemma_insert_by_position_sorted(q: Seq<ProjectView>, p: ProjectView)
    requires
        sorted_by_position(q),
    ensures
        sorted_by_position(insert_by_position(q, p)),
    decreases q.len(),
{
    if q.len() > 0 && !(p.position < q[0].position) {
        let rest = q.drop_first();
        lemma_insert_by_position_sorted(rest, p);
        let t = insert_by_position(q, p);
        let tr = insert_by_position(rest, p);
        lemma_insert_multiset_position(rest, p);
        assert forall|i: int, j: int| 0 <= i < j < t.len() implies t[i].position
            <= t[j].position by {
            if i == 0 {
                assert(t[j] == tr[j - 1]);
                lemma_insert_member_position(rest, p, j - 1);
            } else {
                assert(t[i] == tr[i - 1] && t[j] == tr[j - 1]);
            }
        }
    }
}

/// Every row of an insertion's result is the inserted row or one of the
/// sequence's own.
proof fn lemma_insert_member_position(q: Seq<ProjectView>, p: ProjectView, i: int)
    requires
        0 <= i < insert_by_position(q, p).len(),
    ensures
        insert_by_position(q, p)[i] == p || exists|m: int|
            0 <= m < q.len() && insert_by_position(q, p)[i] == q[m],
    decreases q.len(),
{
    let t = insert_by_position(q, p);
    if q.len() == 0 {
    } else if p.position < q[0].position {
        if i > 0 {
            assert(t[i] == q[i - 1]);
        }
    } else {
        if i > 0 {
            let rest = q.drop_first();
            lemma_insert_member_position(rest, p, i - 1);
            assert(t[i] == insert_by_position(rest, p)[i - 1]);
            if insert_by_position(rest, p)[i - 1] != p {
                let m = choose|m: int|
                    0 <= m < rest.len() && insert_by_position(rest, p)[i - 1] == rest[m];
                assert(t[i] == q[m + 1]);
            }
        }
    }
}

/// An insertion adds exactly the inserted row to the sequence's contents.
pub proof fn lemma_insert_multiset_position(q: Seq<ProjectView>, p: ProjectView)
    ensures
        insert_by_position(q, p).to_multiset() =~= q.to_multiset().insert(p),
    decreases q.len(),
{
    broadcast use vstd::seq_lib::group_to_multiset_ensures;

    if q.len() == 0 {
        assert(insert_by_position(q, p) =~= Seq::<ProjectView>::empty().push(p));
        assert(Seq::<ProjectView>::empty().push(p).to_multiset() =~= Seq::<
            ProjectView,
        >::empty().to_multiset().insert(p));
    } else if p.position < q[0].position {
        let t = seq![p] + q;
        assert(seq![p] =~= Seq::<ProjectView>::empty().push(p));
        lemma_multiset_commutative(seq![p], q);
        assert(seq![p].to_multiset() =~= Seq::<ProjectView>::empty().to_multiset().insert(p));
    } else {
        let rest = q.drop_first();
        lemma_insert_multiset_position(rest, p);
        lemma_multiset_commutative(seq![q[0]], insert_by_position(rest, p));
        lemma_multiset_commutative(seq![q[0]], rest);
        assert(seq![q[0]] + rest =~= q);
        assert(seq![q[0]].to_multiset() =~= Seq::<ProjectView>::empty().to_multiset().insert(q[0]));
        assert(insert_by_position(q, p).to_multiset() =~= seq![q[0]].to_multiset().add(
            insert_by_position(rest, p).to_multiset(),
        ));
        assert(seq![q[0]].to_multiset().add(rest.to_multiset().insert(p)) =~= (seq![q[0]]
            + rest).to_multiset().insert(p));
    }
}

/// What the position sort promises: the result is position-sorted and holds
/// exactly the rows of `s`.
pub proof fn lemma_sort_by_position_ensures(s: Seq<ProjectView>)
    ensures
        sorted_by_position(sort_by_position(s)),
        sort_by_position(s).to_multiset() =~= s.to_multiset(),
        sort_by_position(s).len() == s.len(),
    decreases s.len(),
{
    broadcast use vstd::seq_lib::group_to_multiset_ensures;

    if s.len() > 0 {
        let rest = s.drop_last();
        lemma_sort_by_position_ensures(rest);
        lemma_insert_by_position_sorted(sort_by_position(rest), s.last());
        lemma_insert_multiset_position(sort_by_position(rest), s.last());
        assert(rest.push(s.last()) =~= s);
        assert(rest.push(s.last()).to_multiset() =~= rest.to_multiset().insert(s.last()));
        assert(sort_by_position(s).to_multiset().len() == sort_by_position(s).len());
        assert(s.to_multiset().len() == s.len());
    }
}

/// As [`lemma_insert_by_position_at`], for the completion-day order.
pub proof fn lemma_insert_by_completion_at(q: Seq<ProjectView>, p: ProjectView, k: int)
    requires
        0 <= k <= q.len(),
        forall|m: int| 0 <= m < k ==> (#[trigger] q[m]).completion_date >= p.completion_date,
        k == q.len() || q[k].completion_date < p.completion_date,
    ensures
        insert_by_completion(q, p) =~= q.insert(k, p),
    decreases q.len(),
{
    if k == 0 {
        assert(insert_by_completion(q, p) =~= q.insert(0, p));
    } else {
        let rest = q.drop_first();
        assert(q[0].completion_date >= p.completion_date);
        assert(forall|m: int|
            0 <= m < k - 1 ==> (#[trigger] rest[m]).completion_date >= p.completion_date);
        lemma_insert_by_completion_at(rest, p, k - 1);
        assert(insert_by_completion(q, p) == seq![q[0]] + insert_by_completion(rest, p));
        assert(insert_by_completion(q, p) =~= q.insert(k, p));
    }
}

/// Every row of a completion-insertion's result is the inserted row or one
/// of the sequence's own.
proof fn lemma_insert_member_completion(q: Seq<ProjectView>, p: ProjectView, i: int)
    requires
        0 <= i < insert_by_completion(q, p).len(),
    ensures
        insert_by_completion(q, p)[i] == p || exists|m: int|
            0 <= m < q.len() && insert_by_completion(q, p)[i] == q[m],
    decreases q.len(),
{
    let t = insert_by_completion(q, p);
    if q.len() == 0 {
    } else if p.completion_date > q[0].completion_date {
        if i > 0 {
            assert(t[i] == q[i - 1]);
        }
    } else {
        if i > 0 {
            let rest = q.drop_first();
            lemma_insert_member_completion(rest, p, i - 1);
            assert(t[i] == insert_by_completion(rest, p)[i - 1]);
            if insert_by_completion(rest, p)[i - 1] != p {
                let m = choose|m: int|
                    0 <= m < rest.len() && insert_by_completion(rest, p)[i - 1] == rest[m];
                assert(t[i] == q[m + 1]);
            }
        }
    }
}

/// Inserting into a completion-sorted sequence keeps it sorted.
pub proof fn lemma_insert_by_completion_sorted(q: Seq<ProjectView>, p: ProjectView)
    requires
        sorted_by_completion(q),
    ensures
        sorted_by_completion(insert_by_completion(q, p)),
    decreases q.len(),
{
    if q.len() > 0 && !(p.completion_date > q[0].completion_date) {
        let rest = q.drop_first();
        lemma_insert_by_completion_sorted(rest, p);
        let t = insert_by_completion(q, p);
        let tr = insert_by_completion(rest, p);
        assert forall|i: int, j: int| 0 <= i < j < t.len() implies t[i].completion_date
            >= t[j].completion_date by {
            if i == 0 {
                assert(t[j] == tr[j - 1]);
                lemma_insert_member_completion(rest, p, j - 1);
            } else {
                assert(t[i] == tr[i - 1] && t[j] == tr[j - 1]);
            }
        }
    }
}

/// As [`lemma_insert_multiset_position`], for the completion-day order.
pub proof fn lemma_insert_multiset_completion(q: Seq<ProjectView>, p: ProjectView)
    ensures
        insert_by_completion(q, p).to_multiset() =~= q.to_multiset().insert(p),
    decreases q.len(),
{
    broadcast use vstd::seq_lib::group_to_multiset_ensures;

    if q.len() == 0 {
        assert(insert_by_completion(q, p) =~= Seq::<ProjectView>::empty().push(p));
        assert(Seq::<ProjectView>::empty().push(p).to_multiset() =~= Seq::<
            ProjectView,
        >::empty().to_multiset().insert(p));
    } else if p.completion_date > q[0].completion_date {
        lemma_multiset_commutative(seq![p], q);
        assert(seq![p] =~= Seq::<ProjectView>::empty().push(p));
        assert(seq![p].to_multiset() =~= Seq::<ProjectView>::empty().to_multiset().insert(p));
    } else {
        let rest = q.drop_first();
        lemma_insert_multiset_completion(rest, p);
        lemma_multiset_commutative(seq![q[0]], insert_by_completion(rest, p));
        lemma_multiset_commutative(seq![q[0]], rest);
        assert(seq![q[0]] + rest =~= q);
        assert(seq![q[0]].to_multiset() =~= Seq::<ProjectView>::empty().to_multiset().insert(q[0]));
        assert(insert_by_completion(q, p).to_multiset() =~= seq![q[0]].to_multiset().add(
            insert_by_completion(rest, p).to_multiset(),
        ));
        assert(seq![q[0]].to_multiset().add(rest.to_multiset().insert(p)) =~= (seq![q[0]]
            + rest).to_multiset().insert(p));
    }
}

/// What the completion sort promises: the result is sorted by descending
/// completion day and holds exactly the rows of `s`.
pub proof fn lemma_sort_by_completion_ensures(s: Seq<ProjectView>)
    ensures
        sorted_by_completion(sort_by_completion(s)),
        sort_by_completion(s).to_multiset() =~= s.to_multiset(),
        sort_by_completion(s).len() == s.len(),
    decreases s.len(),
{
    broadcast use vstd::seq_lib::group_to_multiset_ensures;

    if s.len() > 0 {
        let rest = s.drop_last();
        lemma_sort_by_completion_ensures(rest);
        lemma_insert_by_completion_sorted(sort_by_completion(rest), s.last());
        lemma_insert_multiset_completion(sort_by_completion(rest), s.last());
        assert(rest.push(s.last()) =~= s);
        assert(rest.push(s.last()).to_multiset() =~= rest.to_multiset().insert(s.last()));
        assert(sort_by_completion(s).to_multiset().len() == sort_by_completion(s).len());
        assert(s.to_multiset().len() == s.len());
    }
}

} // verus!
