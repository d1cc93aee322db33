//! The ordered-table model: what a well-formed project table is, and how each
//! store operation transforms it. Everything here is specification-level; the
//! executable store in `store` is proved against these functions.

use vstd::prelude::*;

use crate::models::ProjectView;
use crate::models::STATUS_COMPLETED;
use crate::models::STATUS_STARTED;

verus! {

/// How many rows of `s` belong to category `c`.
pub open spec fn count_cat(s: Seq<ProjectView>, c: Seq<char>) -> nat
    decreases s.len(),
{
    if s.len() == 0 {
        0
    } else {
        count_cat(s.drop_last(), c) + if s.last().category == c {
            1nat
        } else {
            0nat
        }
    }
}

/// Every row's position lies between 1 and the size of its category.
pub open spec fn positions_bounded(s: Seq<ProjectView>) -> bool {
    forall|i: int|
        0 <= i < s.len() ==> 1 <= (#[trigger] s[i]).position <= count_cat(s, s[i].category)
}

/// No two rows of one category share a position.
pub open spec fn positions_distinct(s: Seq<ProjectView>) -> bool {
    forall|i: int, j: int|
        0 <= i < s.len() && 0 <= j < s.len() && i != j && (#[trigger] s[i]).category == (
        #[trigger] s[j]).category ==> s[i].position != s[j].position
}

/// No two rows share an identifier.
pub open spec fn ids_distinct(s: Seq<ProjectView>) -> bool {
    forall|i: int, j: int|
        0 <= i < s.len() && 0 <= j < s.len() && i != j ==> (#[trigger] s[i]).id != (
        #[trigger] s[j]).id
}

/// Every status is one of the three lifecycle stages.
pub open spec fn statuses_ok(s: Seq<ProjectView>) -> bool {
    forall|i: int| 0 <= i < s.len() ==> 0 <= (#[trigger] s[i]).status <= STATUS_COMPLETED
}

/// A well-formed project table: within each category the positions are
/// distinct values of `{1, ..., N}` (N the category's row count) — hence
/// dense, see [`lemma_positions_exactly_one_through_count`] — identifiers are
/// unique, and statuses are legal.
pub open spec fn table_ok(s: Seq<ProjectView>) -> bool {
    &&& positions_bounded(s)
    &&& positions_distinct(s)
    &&& ids_distinct(s)
    &&& statuses_ok(s)
}

/// Whether some row of `s` carries identifier `id`.
pub open spec fn has_id(s: Seq<ProjectView>, id: int) -> bool {
    exists|i: int| 0 <= i < s.len() && (#[trigger] s[i]).id == id
}

/// The index of the first row carrying `id`, or `-1` if there is none.
pub open spec fn index_of_id(s: Seq<ProjectView>, id: int) -> int
    decreases s.len(),
{
    if s.len() == 0 {
        -1
    } else if s[0].id == id {
        0
    } else {
        let rest = index_of_id(s.drop_first(), id);
        if rest == -1 {
            -1
        } else {
            rest + 1
        }
    }
}

/// `index_of_id` finds the row carrying `id` exactly when there is one.
pub proof fn lemma_index_of_id(s: Seq<ProjectView>, id: int)
    ensures
        has_id(s, id) <==> 0 <= index_of_id(s, id) < s.len(),
        !has_id(s, id) ==> index_of_id(s, id) == -1,
        0 <= index_of_id(s, id) < s.len() ==> s[index_of_id(s, id)].id == id,
    decreases s.len(),
{
    if s.len() > 0 && s[0].id != id {
        let rest = s.drop_first();
        lemma_index_of_id(rest, id);
        assert(forall|i: int| 0 <= i < rest.len() ==> #[trigger] rest[i] == s[i + 1]);
        if has_id(s, id) {
            let i = choose|i: int| 0 <= i < s.len() && (#[trigger] s[i]).id == id;
            assert(rest[i - 1] == s[i]);
            assert(has_id(rest, id));
        }
        if has_id(rest, id) {
            let i = choose|i: int| 0 <= i < rest.len() && (#[trigger] rest[i]).id == id;
            assert(s[i + 1] == rest[i]);
            assert(has_id(s, id));
        }
    }
}

/// With identifiers unique, a row carrying `id` at index `j` is the row
/// `index_of_id` finds.
pub proof fn lemma_id_unique(s: Seq<ProjectView>, id: int, j: int)
    requires
        ids_distinct(s),
        0 <= j < s.len(),
        s[j].id == id,
    ensures
        index_of_id(s, id) == j,
{
    lemma_index_of_id(s, id);
    assert(has_id(s, id));
    let i = index_of_id(s, id);
    if i != j {
        assert(s[i].id != s[j].id);
    }
}

/// Whether a row of `s` sits in category `c` at position `pos`.
pub open spec fn has_row_at(s: Seq<ProjectView>, id: int, c: Seq<char>, pos: int) -> bool {
    exists|i: int|
        0 <= i < s.len() && (#[trigger] s[i]).id == id && s[i].category == c && s[i].position == pos
}

/// The row `p` with its position replaced.
pub open spec fn with_position(p: ProjectView, pos: int) -> ProjectView {
    ProjectView { position: pos, ..p }
}

/// One row's part in a deletion: a row of category `c` behind the removed
/// position slides forward by one; every other row is untouched.
pub open spec fn compact_after(p: ProjectView, c: Seq<char>, pos: int) -> ProjectView {
    if p.category == c && p.position > pos {
        with_position(p, p.position - 1)
    } else {
        p
    }
}

/// The table after deleting the row at index `i`: the row goes, and the rest
/// of its category closes the gap.
pub open spec fn delete_transform(s: Seq<ProjectView>, i: int) -> Seq<ProjectView> {
    s.remove(i).map_values(|q: ProjectView| compact_after(q, s[i].category, s[i].position))
}

/// One row's part in a swap of the neighbouring positions `a` and `a + 1`
/// within category `c`.
pub open spec fn swap_one(p: ProjectView, c: Seq<char>, a: int) -> ProjectView {
    if p.category == c && p.position == a {
        with_position(p, a + 1)
    } else if p.category == c && p.position == a + 1 {
        with_position(p, a)
    } else {
        p
    }
}

/// The table after the rows of category `c` at positions `a` and `a + 1`
/// trade places.
pub open spec fn swap_transform(s: Seq<ProjectView>, c: Seq<char>, a: int) -> Seq<ProjectView> {
    s.map_values(|q: ProjectView| swap_one(q, c, a))
}

/// One row's part in starting the row `tid` of category `c` at position
/// `pos` on day `d`: the target moves to the front, started; the rows that
/// were ahead of it step back by one.
pub open spec fn start_one(p: ProjectView, tid: int, c: Seq<char>, pos: int, d: int) -> ProjectView {
    if p.id == tid {
        ProjectView { status: STATUS_STARTED as int, position: 1, start_date: d, ..p }
    } else if p.category == c && p.position <= pos {
        with_position(p, p.position + 1)
    } else {
        p
    }
}

/// The table after starting row `tid` (which sits in category `c` at
/// position `pos`) on day `d`.
pub open spec fn start_transform(
    s: Seq<ProjectView>,
    tid: int,
    c: Seq<char>,
    pos: int,
    d: int,
) -> Seq<ProjectView> {
    s.map_values(|q: ProjectView| start_one(q, tid, c, pos, d))
}

/// One row's part in completing row `tid` on day `d`: only that row's
/// status and completion date change — its position and category are kept.
pub open spec fn complete_one(p: ProjectView, tid: int, d: int) -> ProjectView {
    if p.id == tid {
        ProjectView { status: STATUS_COMPLETED as int, completion_date: d, ..p }
    } else {
        p
    }
}

/// The table after completing row `tid` on day `d`.
pub open spec fn complete_transform(s: Seq<ProjectView>, tid: int, d: int) -> Seq<ProjectView> {
    s.map_values(|q: ProjectView| complete_one(q, tid, d))
}

/// One row's part in overwriting the notes of row `tid`.
pub open spec fn notes_one(p: ProjectView, tid: int, notes: Seq<char>) -> ProjectView {
    if p.id == tid {
        ProjectView { notes: notes, ..p }
    } else {
        p
    }
}

/// The table after overwriting the notes of row `tid`.
pub open spec fn notes_transform(s: Seq<ProjectView>, tid: int, notes: Seq<char>) -> Seq<ProjectView> {
    s.map_values(|q: ProjectView| notes_one(q, tid, notes))
}

/// A freshly added row: pending, empty notes, no start or completion date.
pub open spec fn fresh_row(
    id: int,
    name: Seq<char>,
    category: Seq<char>,
    position: int,
    creation_date: int,
) -> ProjectView {
    ProjectView {
        id: id,
        name: name,
        category: category,
        position: position,
        status: 0,
        notes: Seq::empty(),
        creation_date: creation_date,
        start_date: 0,
        completion_date: 0,
    }
}

/// The positions of the rows of category `c`, in table order.
pub open spec fn positions_of(s: Seq<ProjectView>, c: Seq<char>) -> Seq<int>
    decreases s.len(),
{
    if s.len() == 0 {
        Seq::empty()
    } else if s.last().category == c {
        positions_of(s.drop_last(), c).push(s.last().position)
    } else {
        positions_of(s.drop_last(), c)
    }
}

/// Counting one more row of the table extends the count of its category by
/// one and leaves every other count alone.
pub proof fn lemma_count_take_step(s: Seq<ProjectView>, c: Seq<char>, k: int)
    requires
        0 <= k < s.len(),
    ensures
        count_cat(s.take(k + 1), c) == count_cat(s.take(k), c) + if s[k].category == c {
            1int
        } else {
            0int
        },
{
    assert(s.take(k + 1).drop_last() =~= s.take(k));
    assert(s.take(k + 1).last() == s[k]);
}

/// Removing a row lowers its category's count by one and no other count.
pub proof fn lemma_count_remove(s: Seq<ProjectView>, i: int, c: Seq<char>)
    requires
        0 <= i < s.len(),
    ensures
        count_cat(s.remove(i), c) == count_cat(s, c) - if s[i].category == c {
            1int
        } else {
            0int
        },
    decreases s.len(),
{
    if i == s.len() - 1 {
        assert(s.remove(i) =~= s.drop_last());
    } else {
        lemma_count_remove(s.drop_last(), i, c);
        assert(s.remove(i).drop_last() =~= s.drop_last().remove(i));
        assert(s.remove(i).last() == s.last());
    }
}

/// Appending a row raises its category's count by one and no other count.
pub proof fn lemma_count_push(s: Seq<ProjectView>, p: ProjectView, c: Seq<char>)
    ensures
        count_cat(s.push(p), c) == count_cat(s, c) + if p.category == c {
            1int
        } else {
            0int
        },
{
    assert(s.push(p).drop_last() =~= s);
    assert(s.push(p).last() == p);
}

/// There are as many positions listed for a category as it has rows.
pub proof fn lemma_positions_of_len(s: Seq<ProjectView>, c: Seq<char>)
    ensures
        positions_of(s, c).len() == count_cat(s, c),
    decreases s.len(),
{
    if s.len() > 0 {
        lemma_positions_of_len(s.drop_last(), c);
    }
}

/// A value is listed among a category's positions exactly when some row of
/// that category carries it.
pub proof fn lemma_positions_of_membership(s: Seq<ProjectView>, c: Seq<char>, p: int)
    ensures
        positions_of(s, c).contains(p) <==> exists|i: int|
            0 <= i < s.len() && (#[trigger] s[i]).category == c && s[i].position == p,
    decreases s.len(),
{
    if s.len() > 0 {
        let rest = s.drop_last();
        lemma_positions_of_membership(rest, c, p);
        if exists|i: int| 0 <= i < s.len() && (#[trigger] s[i]).category == c && s[i].position == p {
            let i = choose|i: int|
                0 <= i < s.len() && (#[trigger] s[i]).category == c && s[i].position == p;
            if i < s.len() - 1 {
                assert(rest[i] == s[i]);
                let q = positions_of(rest, c);
                let j = choose|j: int| 0 <= j < q.len() && q[j] == p;
                if s.last().category == c {
                    assert(positions_of(s, c)[j] == p);
                } else {
                    assert(positions_of(s, c)[j] == p);
                }
            } else {
                assert(s.last() == s[i]);
                assert(positions_of(s, c).last() == p);
            }
        }
        if positions_of(s, c).contains(p) {
            let q = positions_of(rest, c);
            let j = choose|j: int| 0 <= j < positions_of(s, c).len() && positions_of(s, c)[j] == p;
            if s.last().category == c && j == q.len() {
                assert(s[s.len() - 1].category == c && s[s.len() - 1].position == p);
            } else {
                assert(q[j] == p);
                assert(q.contains(p));
                let i = choose|i: int|
                    0 <= i < rest.len() && (#[trigger] rest[i]).category == c && rest[i].position
                        == p;
                assert(s[i].category == c && s[i].position == p);
            }
        }
    }
}

/// When no two rows of a category share a position, the category's position
/// list has no duplicates.
pub proof fn lemma_positions_of_no_dup(s: Seq<ProjectView>, c: Seq<char>)
    requires
        positions_distinct(s),
    ensures
        positions_of(s, c).no_duplicates(),
    decreases s.len(),
{
    if s.len() > 0 {
        let rest = s.drop_last();
        assert(forall|i: int| 0 <= i < rest.len() ==> rest[i] == s[i]);
        lemma_positions_of_no_dup(rest, c);
        if s.last().category == c {
            lemma_positions_of_membership(rest, c, s.last().position);
            assert(!positions_of(rest, c).contains(s.last().position)) by {
                if exists|i: int|
                    0 <= i < rest.len() && (#[trigger] rest[i]).category == c && rest[i].position
                        == s.last().position {
                    let i = choose|i: int|
                        0 <= i < rest.len() && (#[trigger] rest[i]).category == c
                            && rest[i].position == s.last().position;
                    assert(s[i].category == s[s.len() - 1].category);
                    assert(false);
                }
            }
            let q = positions_of(rest, c);
            let w = positions_of(s, c);
            assert(w == q.push(s.last().position));
            assert forall|i: int, j: int|
                0 <= i < w.len() && 0 <= j < w.len() && i != j implies w[i] != w[j] by {
                if i < q.len() && j < q.len() {
                } else if i == q.len() {
                    assert(w[j] == q[j]);
                    assert(q.contains(q[j]));
                } else if j == q.len() {
                    assert(w[i] == q[i]);
                    assert(q.contains(q[i]));
                }
            }
        }
    }
}

/// The density law: in a well-formed table the positions a category's rows
/// carry are exactly the integers 1 through N, where N is the number of rows
/// in the category.
pub proof fn lemma_positions_exactly_one_through_count(s: Seq<ProjectView>, c: Seq<char>)
    requires
        positions_bounded(s),
        positions_distinct(s),
    ensures
        positions_of(s, c).to_set() =~= vstd::set_lib::set_int_range(1, count_cat(s, c) + 1int),
{
    let q = positions_of(s, c);
    let n = count_cat(s, c) as int;
    let range = vstd::set_lib::set_int_range(1, n + 1);
    lemma_positions_of_len(s, c);
    lemma_positions_of_no_dup(s, c);
    assert forall|p: int| q.to_set().contains(p) implies range.contains(p) by {
        lemma_positions_of_membership(s, c, p);
        let i = choose|i: int|
            0 <= i < s.len() && (#[trigger] s[i]).category == c && s[i].position == p;
        assert(1 <= s[i].position <= count_cat(s, s[i].category));
    }
    q.unique_seq_to_set();
    vstd::set_lib::lemma_int_range(1, n + 1);
    vstd::set_lib::lemma_subset_equality(q.to_set(), range);
}

/// In a well-formed table every rank from 1 to a category's row count is
/// held by some row of the category.
pub proof fn lemma_position_attained(s: Seq<ProjectView>, c: Seq<char>, p: int)
    requires
        positions_bounded(s),
        positions_distinct(s),
        1 <= p <= count_cat(s, c),
    ensures
        exists|i: int| 0 <= i < s.len() && (#[trigger] s[i]).category == c && s[i].position == p,
{
    lemma_positions_exactly_one_through_count(s, c);
    assert(positions_of(s, c).to_set().contains(p));
    lemma_positions_of_membership(s, c, p);
}

/// Appending a row that takes the next rank of its category and a fresh
/// identifier keeps the table well-formed.
pub proof fn lemma_add_ok(s: Seq<ProjectView>, p: ProjectView)
    requires
        table_ok(s),
        p.position == count_cat(s, p.category) + 1,
        0 <= p.status <= STATUS_COMPLETED,
        forall|i: int| 0 <= i < s.len() ==> (#[trigger] s[i]).id != p.id,
    ensures
        table_ok(s.push(p)),
{
    let t = s.push(p);
    assert forall|i: int|
        0 <= i < t.len() implies 1 <= (#[trigger] t[i]).position <= count_cat(t, t[i].category) by {
        lemma_count_push(s, p, t[i].category);
        if i < s.len() {
            assert(t[i] == s[i]);
            assert(1 <= s[i].position <= count_cat(s, s[i].category));
        } else {
            assert(t[i] == p);
        }
    }
    assert forall|i: int, j: int|
        0 <= i < t.len() && 0 <= j < t.len() && i != j && (#[trigger] t[i]).category == (
        #[trigger] t[j]).category implies t[i].position != t[j].position by {
        if i < s.len() && j < s.len() {
            assert(t[i] == s[i] && t[j] == s[j]);
        } else if i == s.len() && j < s.len() {
            assert(t[i] == p && t[j] == s[j]);
            assert(s[j].position <= count_cat(s, s[j].category));
        } else if j == s.len() && i < s.len() {
            assert(t[j] == p && t[i] == s[i]);
            assert(s[i].position <= count_cat(s, s[i].category));
        }
    }
    assert forall|i: int, j: int|
        0 <= i < t.len() && 0 <= j < t.len() && i != j implies (#[trigger] t[i]).id != (
        #[trigger] t[j]).id by {}
    assert(statuses_ok(t));
}

/// A restored table: the payload's rows in order, each with a fresh
/// identifier handed out from `base` upward and every other field kept.
pub open spec fn import_views(s: Seq<ProjectView>, base: int) -> Seq<ProjectView> {
    Seq::new(s.len(), |k: int| ProjectView { id: base + k, ..s[k] })
}

/// A payload whose positions are dense and distinct per category and whose
/// statuses are legal restores to a well-formed table, row for row equal to
/// the payload except for the fresh identifiers.
pub proof fn lemma_import_views_ok(s: Seq<ProjectView>, base: int)
    requires
        positions_bounded(s),
        positions_distinct(s),
        statuses_ok(s),
    ensures
        import_views(s, base).len() == s.len(),
        forall|k: int|
            0 <= k < s.len() ==> #[trigger] import_views(s, base)[k] == (ProjectView {
                id: base + k,
                ..s[k]
            }),
        table_ok(import_views(s, base)),
{
    let t = import_views(s, base);
    assert forall|k: int|
        0 <= k < t.len() implies 1 <= (#[trigger] t[k]).position <= count_cat(
        t,
        t[k].category,
    ) by {
        let cc = s[k].category;
        lemma_count_congruent(s, t, cc);
        assert(1 <= s[k].position <= count_cat(s, cc));
    }
    assert forall|k1: int, k2: int|
        0 <= k1 < t.len() && 0 <= k2 < t.len() && k1 != k2 && (#[trigger] t[k1]).category == (
        #[trigger] t[k2]).category implies t[k1].position != t[k2].position by {
        assert(s[k1].position != s[k2].position || s[k1].category != s[k2].category);
    }
    assert(ids_distinct(t));
    assert(statuses_ok(t)) by {
        assert forall|k: int| 0 <= k < t.len() implies 0 <= (#[trigger] t[k]).status
            <= STATUS_COMPLETED by {
            assert(0 <= s[k].status <= STATUS_COMPLETED);
        }
    }
}

/// Two tables whose rows agree on categories row by row give every category
/// the same count.
pub proof fn lemma_count_congruent(s: Seq<ProjectView>, t: Seq<ProjectView>, c: Seq<char>)
    requires
        t.len() == s.len(),
        forall|k: int| 0 <= k < s.len() ==> (#[trigger] t[k]).category == s[k].category,
    ensures
        count_cat(t, c) == count_cat(s, c),
    decreases s.len(),
{
    if s.len() > 0 {
        lemma_count_congruent(s.drop_last(), t.drop_last(), c);
        assert(t.last().category == s.last().category);
    }
}

/// Deleting a row and closing the gap keeps the table well-formed; the
/// ensured shape spells the transform out row by row.
pub proof fn lemma_delete_ok(s: Seq<ProjectView>, i: int)
    requires
        table_ok(s),
        0 <= i < s.len(),
    ensures
        delete_transform(s, i).len() == s.len() - 1,
        forall|k: int|
            0 <= k < i ==> #[trigger] delete_transform(s, i)[k] == compact_after(
                s[k],
                s[i].category,
                s[i].position,
            ),
        forall|k: int|
            i <= k < s.len() - 1 ==> #[trigger] delete_transform(s, i)[k] == compact_after(
                s[k + 1],
                s[i].category,
                s[i].position,
            ),
        table_ok(delete_transform(s, i)),
{
    let t = delete_transform(s, i);
    let c = s[i].category;
    let pos = s[i].position;
    let rem = s.remove(i);
    s.remove_ensures(i);
    assert forall|k: int| 0 <= k < t.len() implies (#[trigger] t[k]) == compact_after(
        rem[k],
        c,
        pos,
    ) by {}
    assert forall|k: int|
        0 <= k < t.len() implies 1 <= (#[trigger] t[k]).position <= count_cat(
        t,
        t[k].category,
    ) by {
        let orig = rem[k];
        let cc = orig.category;
        lemma_count_remove(s, i, cc);
        lemma_count_congruent(rem, t, cc);
        assert(t[k].category == cc);
        if k < i {
            assert(orig == s[k]);
            assert(1 <= s[k].position <= count_cat(s, cc));
            if cc == c {
                assert(s[k].position != pos);
                assert(pos <= count_cat(s, c));
            }
        } else {
            assert(orig == s[k + 1]);
            assert(1 <= s[k + 1].position <= count_cat(s, cc));
            if cc == c {
                assert(s[k + 1].position != pos);
                assert(pos <= count_cat(s, c));
            }
        }
    }
    assert forall|k1: int, k2: int|
        0 <= k1 < t.len() && 0 <= k2 < t.len() && k1 != k2 && (#[trigger] t[k1]).category == (
        #[trigger] t[k2]).category implies t[k1].position != t[k2].position by {
        let o1 = if k1 < i {
            k1
        } else {
            k1 + 1
        };
        let o2 = if k2 < i {
            k2
        } else {
            k2 + 1
        };
        assert(rem[k1] == s[o1] && rem[k2] == s[o2]);
        assert(s[o1].position != s[o2].position);
        if s[o1].category == c {
            assert(s[o1].position != pos);
        }
        if s[o2].category == c {
            assert(s[o2].position != pos);
        }
    }
    assert forall|k1: int, k2: int|
        0 <= k1 < t.len() && 0 <= k2 < t.len() && k1 != k2 implies (#[trigger] t[k1]).id != (
        #[trigger] t[k2]).id by {
        let o1 = if k1 < i {
            k1
        } else {
            k1 + 1
        };
        let o2 = if k2 < i {
            k2
        } else {
            k2 + 1
        };
        assert(rem[k1] == s[o1] && rem[k2] == s[o2]);
    }
    assert(statuses_ok(t)) by {
        assert forall|k: int| 0 <= k < t.len() implies 0 <= (#[trigger] t[k]).status
            <= STATUS_COMPLETED by {
            let o = if k < i {
                k
            } else {
                k + 1
            };
            assert(rem[k] == s[o]);
        }
    }
}

/// Swapping the rows of category `c` at the neighbouring positions `a` and
/// `a + 1` keeps the table well-formed and touches no other row.
pub proof fn lemma_swap_ok(s: Seq<ProjectView>, c: Seq<char>, a: int)
    requires
        table_ok(s),
        1 <= a,
        a + 1 <= count_cat(s, c),
    ensures
        swap_transform(s, c, a).len() == s.len(),
        forall|k: int|
            0 <= k < s.len() ==> #[trigger] swap_transform(s, c, a)[k] == swap_one(s[k], c, a),
        table_ok(swap_transform(s, c, a)),
{
    let t = swap_transform(s, c, a);
    assert forall|k: int|
        0 <= k < t.len() implies 1 <= (#[trigger] t[k]).position <= count_cat(
        t,
        t[k].category,
    ) by {
        let cc = s[k].category;
        lemma_count_congruent(s, t, cc);
        assert(1 <= s[k].position <= count_cat(s, cc));
    }
    assert forall|k1: int, k2: int|
        0 <= k1 < t.len() && 0 <= k2 < t.len() && k1 != k2 && (#[trigger] t[k1]).category == (
        #[trigger] t[k2]).category implies t[k1].position != t[k2].position by {
        assert(s[k1].position != s[k2].position);
    }
    assert(ids_distinct(t)) by {
        assert forall|k1: int, k2: int|
            0 <= k1 < t.len() && 0 <= k2 < t.len() && k1 != k2 implies (#[trigger] t[k1]).id != (
            #[trigger] t[k2]).id by {
            assert(s[k1].id != s[k2].id);
        }
    }
    assert(statuses_ok(t)) by {
        assert forall|k: int| 0 <= k < t.len() implies 0 <= (#[trigger] t[k]).status
            <= STATUS_COMPLETED by {
            assert(0 <= s[k].status <= STATUS_COMPLETED);
        }
    }
}

/// Starting the row at index `j` keeps the table well-formed: the target
/// takes position 1 and the rows that were ahead of it step back by one.
pub proof fn lemma_start_ok(s: Seq<ProjectView>, j: int, d: int)
    requires
        table_ok(s),
        0 <= j < s.len(),
    ensures
        ({
            let t = start_transform(s, s[j].id, s[j].category, s[j].position, d);
            &&& t.len() == s.len()
            &&& (forall|k: int|
                0 <= k < s.len() ==> #[trigger] t[k] == start_one(
                    s[k],
                    s[j].id,
                    s[j].category,
                    s[j].position,
                    d,
                ))
            &&& table_ok(t)
        }),
{
    let tid = s[j].id;
    let c = s[j].category;
    let pos = s[j].position;
    let t = start_transform(s, tid, c, pos, d);
    assert forall|k: int|
        0 <= k < s.len() && k != j && (#[trigger] s[k]).category == c implies s[k].position
        != pos by {}
    assert forall|k: int|
        0 <= k < t.len() implies 1 <= (#[trigger] t[k]).position <= count_cat(
        t,
        t[k].category,
    ) by {
        let cc = s[k].category;
        lemma_count_congruent(s, t, cc);
        assert(1 <= s[k].position <= count_cat(s, cc));
        if k != j && s[k].id == tid {
            assert(s[k].id != s[j].id);
        }
        if k == j {
            assert(1 <= pos <= count_cat(s, c));
        }
    }
    assert forall|k1: int, k2: int|
        0 <= k1 < t.len() && 0 <= k2 < t.len() && k1 != k2 && (#[trigger] t[k1]).category == (
        #[trigger] t[k2]).category implies t[k1].position != t[k2].position by {
        assert(s[k1].position != s[k2].position || s[k1].category != s[k2].category);
        if k1 != j && s[k1].id == tid {
            assert(s[k1].id != s[j].id);
        }
        if k2 != j && s[k2].id == tid {
            assert(s[k2].id != s[j].id);
        }
        if k1 == j && s[k2].category == c {
            assert(s[k2].position != pos);
        }
        if k2 == j && s[k1].category == c {
            assert(s[k1].position != pos);
        }
    }
    assert(ids_distinct(t)) by {
        assert forall|k1: int, k2: int|
            0 <= k1 < t.len() && 0 <= k2 < t.len() && k1 != k2 implies (#[trigger] t[k1]).id != (
            #[trigger] t[k2]).id by {
            assert(s[k1].id != s[k2].id);
        }
    }
    assert(statuses_ok(t)) by {
        assert forall|k: int| 0 <= k < t.len() implies 0 <= (#[trigger] t[k]).status
            <= STATUS_COMPLETED by {
            assert(0 <= s[k].status <= STATUS_COMPLETED);
        }
    }
}

/// A map that changes no row's identifier, category, position, and keeps
/// every status legal, keeps the table well-formed.
pub proof fn lemma_same_shape_ok(s: Seq<ProjectView>, t: Seq<ProjectView>)
    requires
        table_ok(s),
        t.len() == s.len(),
        forall|k: int|
            0 <= k < s.len() ==> (#[trigger] t[k]).category == s[k].category && t[k].position
                == s[k].position && t[k].id == s[k].id && 0 <= t[k].status <= STATUS_COMPLETED,
    ensures
        table_ok(t),
{
    assert forall|k: int|
        0 <= k < t.len() implies 1 <= (#[trigger] t[k]).position <= count_cat(
        t,
        t[k].category,
    ) by {
        let cc = s[k].category;
        lemma_count_congruent(s, t, cc);
        assert(1 <= s[k].position <= count_cat(s, cc));
    }
    assert forall|k1: int, k2: int|
        0 <= k1 < t.len() && 0 <= k2 < t.len() && k1 != k2 && (#[trigger] t[k1]).category == (
        #[trigger] t[k2]).category implies t[k1].position != t[k2].position by {
        assert(s[k1].position != s[k2].position || s[k1].category != s[k2].category);
    }
    assert(ids_distinct(t)) by {
        assert forall|k1: int, k2: int|
            0 <= k1 < t.len() && 0 <= k2 < t.len() && k1 != k2 implies (#[trigger] t[k1]).id != (
            #[trigger] t[k2]).id by {
            assert(s[k1].id != s[k2].id);
        }
    }
}

} // verus!
