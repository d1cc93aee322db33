//! The project store: an ordered table of projects whose per-category
//! positions stay dense and unique under every operation.

use vstd::prelude::*;

use chrono::Datelike;

use crate::models::Project;
use crate::models::ProjectView;
use crate::models::STATUS_COMPLETED;
use crate::models::STATUS_PENDING;
use crate::models::STATUS_STARTED;
use crate::models::StoreError;
use crate::models::views_of;
use crate::ordering::complete_one;
use crate::ordering::complete_transform;
use crate::ordering::count_cat;
use crate::ordering::delete_transform;
use crate::ordering::fresh_row;
use crate::ordering::has_id;
use crate::ordering::has_row_at;
use crate::ordering::import_views;
use crate::ordering::index_of_id;
use crate::ordering::lemma_add_ok;
use crate::ordering::lemma_count_take_step;
use crate::ordering::lemma_delete_ok;
use crate::ordering::lemma_id_unique;
use crate::ordering::lemma_import_views_ok;
use crate::ordering::lemma_position_attained;
use crate::ordering::lemma_same_shape_ok;
use crate::ordering::lemma_start_ok;
use crate::ordering::lemma_swap_ok;
use crate::ordering::notes_one;
use crate::ordering::notes_transform;
use crate::ordering::start_one;
use crate::ordering::start_transform;
use crate::ordering::swap_one;
use crate::ordering::swap_transform;
use crate::ordering::table_ok;
use crate::sorting::completed_rows;
use crate::sorting::insert_by_completion;
use crate::sorting::insert_by_position;
use crate::sorting::lemma_insert_by_completion_at;
use crate::sorting::lemma_insert_by_completion_sorted;
use crate::sorting::lemma_insert_by_position_at;
use crate::sorting::lemma_insert_by_position_sorted;
use crate::sorting::lemma_sort_by_completion_ensures;
use crate::sorting::lemma_sort_by_position_ensures;
use crate::sorting::page_of;
use crate::sorting::sort_by_completion;
use crate::sorting::sort_by_position;
use crate::sorting::sorted_by_completion;
use crate::sorting::sorted_by_position;

verus! {

/// The store: a table of project rows and the identifier the next row will
/// receive. Within each category the rows' positions are exactly
/// `1, ..., N`, dense and unique.
pub struct Store {
    projects: Vec<Project>,
    next_id: u64,
}

impl View for Store {
    type V = Seq<ProjectView>;

    closed spec fn view(&self) -> Seq<ProjectView> {
        crate::models::views_of(self.projects@)
    }
}

/// Relies on chrono's `Local::now` (with `Datelike::num_days_from_ce`): the
/// current local calendar date, counted in days from the common era. The
/// result depends on the clock and the time zone, so nothing is promised of
/// it.
#[verifier::external_body]
fn today() -> i64 {
    chrono::Local::now().date_naive().num_days_from_ce() as i64
}

impl Store {
    /// The identifier the next added row will receive.
    pub closed spec fn spec_next_id(self) -> int {
        self.next_id as int
    }

    /// Store validity: the table is well-formed and every identifier in it
    /// was handed out before `spec_next_id`.
    pub open spec fn wf(self) -> bool {
        &&& table_ok(self@)
        &&& forall|i: int| 0 <= i < self@.len() ==> (#[trigger] self@[i]).id < self.spec_next_id()
        &&& 1 <= self.spec_next_id()
    }

    /// An empty store.
    pub fn new() -> (r: Store)
        ensures
            r@ == Seq::<ProjectView>::empty(),
            r.wf(),
    {
        let r = Store { projects: Vec::new(), next_id: 1 };
        proof {
            assert(r@ =~= Seq::<ProjectView>::empty());
        }
        r
    }

    /// The number of rows in the store.
    pub fn len(&self) -> (r: usize)
        ensures
            r == self@.len(),
    {
        self.projects.len()
    }

    /// The index of the row carrying `id`, if there is one.
    fn find_row(&self, id: u64) -> (r: Option<usize>)
        ensures
            match r {
                Some(j) => j < self@.len() && self@[j as int].id == id as int,
                None => !has_id(self@, id as int),
            },
    {
        let mut k: usize = 0;
        while k < self.projects.len()
            invariant
                k <= self.projects.len(),
                forall|m: int| 0 <= m < k ==> (#[trigger] self@[m]).id != id as int,
            decreases self.projects.len() - k,
        {
            if self.projects[k].id == id {
                return Some(k);
            }
            k += 1;
        }
        None
    }

    /// A copy of the row carrying `id`, or nothing when no row does.
    pub fn get(&self, id: u64) -> (r: Option<Project>)
        requires
            self.wf(),
        ensures
            match r {
                Some(p) => exists|i: int|
                    0 <= i < self@.len() && (#[trigger] self@[i]).id == id as int && p@ == self@[i],
                None => !has_id(self@, id as int),
            },
    {
        match self.find_row(id) {
            Some(j) => Some(self.projects[j].duplicate()),
            None => None,
        }
    }

    /// The highest position in use in `category` — by density, the number of
    /// the category's rows — or 0 when the category is empty.
    pub fn highest_position(&self, category: &String) -> (r: u64)
        requires
            self.wf(),
        ensures
            r as int == count_cat(self@, category@),
    {
        let mut m: u64 = 0;
        let mut k: usize = 0;
        while k < self.projects.len()
            invariant
                k <= self.projects.len(),
                forall|i: int|
                    0 <= i < k && (#[trigger] self@[i]).category == category@ ==> self@[i].position
                        <= m as int,
                m == 0 || exists|i: int|
                    0 <= i < k && (#[trigger] self@[i]).category == category@ && self@[i].position
                        == m as int,
            decreases self.projects.len() - k,
        {
            let row = &self.projects[k];
            if row.category == *category {
                if row.position > m {
                    m = row.position;
                    proof {
                        assert((#[trigger] self@[k as int]).category == category@
                            && self@[k as int].position == m as int);
                    }
                }
            }
            k += 1;
        }
        proof {
            let s = self@;
            let n = count_cat(s, category@) as int;
            if n > 0 {
                lemma_position_attained(s, category@, n);
                let i = choose|i: int|
                    0 <= i < s.len() && (#[trigger] s[i]).category == category@ && s[i].position
                        == n;
                assert(s[i].position <= m as int);
            }
            if m as int > 0 {
                let i = choose|i: int|
                    0 <= i < s.len() && (#[trigger] s[i]).category == category@ && s[i].position
                        == m as int;
                assert(1 <= s[i].position <= count_cat(s, s[i].category));
            }
        }
        m
    }

    /// Add a project to `category` on the given creation day: the new row is
    /// appended at the category's next free position — one past the highest
    /// in use, position 1 in an empty category — with a fresh identifier,
    /// pending status and empty notes. No other row changes. Fails (leaving
    /// the store unchanged) only when the identifier or position space is
    /// exhausted.
    pub fn add_dated(&mut self, name: String, category: String, creation_date: i64) -> (r: Result<
        u64,
        StoreError,
    >)
        requires
            old(self).wf(),
        ensures
            final(self).wf(),
            ({
                let can = old(self).spec_next_id() < u64::MAX as int && count_cat(
                    old(self)@,
                    category@,
                ) < u64::MAX as int;
                match r {
                    Ok(id) => can && id as int == old(self).spec_next_id() && final(self)@ == old(self)@.push(
                        fresh_row(
                            id as int,
                            name@,
                            category@,
                            count_cat(old(self)@, category@) + 1int,
                            creation_date as int,
                        ),
                    ) && final(self).spec_next_id() == old(self).spec_next_id() + 1,
                    Err(e) => !can && e == StoreError::ConstraintViolation && final(self)@ == old(self)@ && final(self).spec_next_id() == old(self).spec_next_id(),
                }
            }),
    {
        if self.next_id == u64::MAX {
            return Err(StoreError::ConstraintViolation);
        }
        let highest = self.highest_position(&category);
        if highest == u64::MAX {
            return Err(StoreError::ConstraintViolation);
        }
        let id = self.next_id;
        self.next_id = id + 1;
        let ghost s = self@;
        let row = Project {
            id: id,
            name: name,
            category: category,
            position: highest + 1,
            status: STATUS_PENDING,
            notes: String::new(),
            creation_date: creation_date,
            start_date: 0,
            completion_date: 0,
        };
        let ghost rv = row@;
        self.projects.push(row);
        proof {
            assert(self@ =~= s.push(rv));
            lemma_add_ok(s, rv);
        }
        Ok(id)
    }

    /// Add a project to `category`, stamped with today as its creation day:
    /// as [`Store::add_dated`], whose contract gives the full effect.
    pub fn add(&mut self, name: String, category: String) -> (r: Result<u64, StoreError>)
        requires
            old(self).wf(),
        ensures
            final(self).wf(),
            ({
                let can = old(self).spec_next_id() < u64::MAX as int && count_cat(
                    old(self)@,
                    category@,
                ) < u64::MAX as int;
                match r {
                    Ok(id) => can && id as int == old(self).spec_next_id() && final(self)@.len()
                        == old(self)@.len() + 1 && final(self)@.take(old(self)@.len() as int) == old(self)@ && final(self)@.last() == fresh_row(
                        id as int,
                        name@,
                        category@,
                        count_cat(old(self)@, category@) + 1int,
                        final(self)@.last().creation_date,
                    ) && final(self).spec_next_id() == old(self).spec_next_id() + 1,
                    Err(e) => !can && e == StoreError::ConstraintViolation && final(self)@ == old(self)@ && final(self).spec_next_id() == old(self).spec_next_id(),
                }
            }),
    {
        let d = today();
        let ghost s = self@;
        let r = self.add_dated(name, category, d);
        proof {
            if r is Ok {
                assert(self@.take(s.len() as int) =~= s);
            }
        }
        r
    }

    /// The index of the row carrying `id`, provided it also sits in
    /// `category` at `position` — the triple a caller supplies with a
    /// reorder request.
    fn find_checked(&self, id: u64, category: &String, position: u64) -> (r: Option<usize>)
        requires
            self.wf(),
        ensures
            match r {
                Some(j) => {
                    &&& (j as int) < self@.len()
                    &&& j as int == index_of_id(self@, id as int)
                    &&& self@[j as int].id == id as int
                    &&& self@[j as int].category == category@
                    &&& self@[j as int].position == position as int
                    &&& has_row_at(self@, id as int, category@, position as int)
                },
                None => !has_row_at(self@, id as int, category@, position as int),
            },
    {
        let s = Ghost(self@);
        match self.find_row(id) {
            None => {
                proof {
                    if has_row_at(s@, id as int, category@, position as int) {
                        let i = choose|i: int|
                            0 <= i < s@.len() && (#[trigger] s@[i]).id == id as int
                                && s@[i].category == category@ && s@[i].position == position as int;
                        assert(has_id(s@, id as int));
                    }
                }
                None
            },
            Some(j) => {
                let row = &self.projects[j];
                if row.category == *category && row.position == position {
                    proof {
                        lemma_id_unique(s@, id as int, j as int);
                        assert((#[trigger] s@[j as int]).id == id as int && s@[j as int].category
                            == category@ && s@[j as int].position == position as int);
                    }
                    Some(j)
                } else {
                    proof {
                        if has_row_at(s@, id as int, category@, position as int) {
                            let i = choose|i: int|
                                0 <= i < s@.len() && (#[trigger] s@[i]).id == id as int
                                    && s@[i].category == category@ && s@[i].position
                                    == position as int;
                            if i != j as int {
                                assert(s@[i].id != s@[j as int].id);
                            }
                        }
                    }
                    None
                }
            },
        }
    }

    /// Delete the row carrying `id` from `category` at `position`: the row
    /// goes, every row of the category behind it slides forward by one, and
    /// nothing else changes. Fails with `NotFound`, changing nothing, when
    /// no row carries `id` in that category at that position.
    pub fn delete(&mut self, id: u64, category: &String, position: u64) -> (r: Result<
        (),
        StoreError,
    >)
        requires
            old(self).wf(),
        ensures
            final(self).wf(),
            final(self).spec_next_id() == old(self).spec_next_id(),
            ({
                let present = has_row_at(old(self)@, id as int, category@, position as int);
                match r {
                    Ok(_) => present && final(self)@ == delete_transform(
                        old(self)@,
                        index_of_id(old(self)@, id as int),
                    ),
                    Err(e) => !present && e == StoreError::NotFound && final(self)@ == old(self)@,
                }
            }),
    {
        let j = match self.find_checked(id, category, position) {
            None => {
                return Err(StoreError::NotFound);
            },
            Some(j) => j,
        };
        let ghost s = self@;
        let ghost tv = delete_transform(s, j as int);
        proof {
            lemma_delete_ok(s, j as int);
        }
        let n = self.projects.len();
        let mut out: Vec<Project> = Vec::new();
        let mut k: usize = 0;
        while k < n
            invariant
                k <= n,
                out@.len() == if k <= j {
                    k as int
                } else {
                    k as int - 1
                },
                forall|m: int| 0 <= m < out@.len() ==> (#[trigger] out@[m])@ == tv[m],
            decreases n - k,
        {
            if k != j {
                let row = &self.projects[k];
                let mut q = row.duplicate();
                if row.category == *category && row.position > position {
                    q.position = q.position - 1;
                }
                out.push(q);
                proof {
                    let m = out@.len() - 1;
                    assert(out@[m]@ =~= tv[m]);
                }
            }
            k += 1;
        }
        self.projects = out;
        proof {
            assert(self@ =~= tv);
            assert forall|m: int| 0 <= m < self@.len() implies (#[trigger] self@[m]).id
                < self.spec_next_id() by {
                let o = if m < j as int {
                    m
                } else {
                    m + 1
                };
                assert(tv[m].id == s[o].id);
            }
        }
        Ok(())
    }

    /// Move the row carrying `id` (in `category` at `position`) one place
    /// up: it trades positions with the row just ahead of it; at position 1
    /// the call is a no-op. Every other row keeps its place. Fails with
    /// `NotFound`, changing nothing, when no row matches the triple.
    pub fn move_up(&mut self, id: u64, category: &String, position: u64) -> (r: Result<
        (),
        StoreError,
    >)
        requires
            old(self).wf(),
        ensures
            final(self).wf(),
            final(self).spec_next_id() == old(self).spec_next_id(),
            ({
                let present = has_row_at(old(self)@, id as int, category@, position as int);
                match r {
                    Ok(_) => present && if position == 1 {
                        final(self)@ == old(self)@
                    } else {
                        final(self)@ == swap_transform(old(self)@, category@, position as int - 1)
                    },
                    Err(e) => !present && e == StoreError::NotFound && final(self)@ == old(self)@,
                }
            }),
    {
        let j = match self.find_checked(id, category, position) {
            None => {
                return Err(StoreError::NotFound);
            },
            Some(j) => j,
        };
        if position == 1 {
            return Ok(());
        }
        let a = position - 1;
        let ghost s = self@;
        let ghost tv = swap_transform(s, category@, a as int);
        proof {
            assert(1 <= s[j as int].position <= count_cat(s, s[j as int].category));
            lemma_swap_ok(s, category@, a as int);
        }
        self.apply_swap(category, a, Ghost(tv));
        Ok(())
    }

    /// Move the row carrying `id` (in `category` at `position`) one place
    /// down: it trades positions with the row just behind it; at the
    /// category's last position the call is a no-op. Every other row keeps
    /// its place. Fails with `NotFound`, changing nothing, when no row
    /// matches the triple.
    pub fn move_down(&mut self, id: u64, category: &String, position: u64) -> (r: Result<
        (),
        StoreError,
    >)
        requires
            old(self).wf(),
        ensures
            final(self).wf(),
            final(self).spec_next_id() == old(self).spec_next_id(),
            ({
                let present = has_row_at(old(self)@, id as int, category@, position as int);
                match r {
                    Ok(_) => present && if position as int == count_cat(old(self)@, category@) {
                        final(self)@ == old(self)@
                    } else {
                        final(self)@ == swap_transform(old(self)@, category@, position as int)
                    },
                    Err(e) => !present && e == StoreError::NotFound && final(self)@ == old(self)@,
                }
            }),
    {
        let j = match self.find_checked(id, category, position) {
            None => {
                return Err(StoreError::NotFound);
            },
            Some(j) => j,
        };
        let highest = self.highest_position(category);
        if position == highest {
            return Ok(());
        }
        let ghost s = self@;
        let ghost tv = swap_transform(s, category@, position as int);
        proof {
            assert(1 <= s[j as int].position <= count_cat(s, s[j as int].category));
            lemma_swap_ok(s, category@, position as int);
        }
        self.apply_swap(category, position, Ghost(tv));
        Ok(())
    }

    /// Replace the table by the swap of positions `a` and `a + 1` within
    /// `category`, already known to be a well-formed result.
    fn apply_swap(&mut self, category: &String, a: u64, tv: Ghost<Seq<ProjectView>>)
        requires
            a < u64::MAX,
            tv@ == swap_transform(old(self)@, category@, a as int),
            table_ok(tv@),
            old(self).wf(),
        ensures
            final(self)@ == tv@,
            final(self).wf(),
            final(self).spec_next_id() == old(self).spec_next_id(),
    {
        let ghost s = self@;
        let n = self.projects.len();
        let mut out: Vec<Project> = Vec::new();
        let mut k: usize = 0;
        while k < n
            invariant
                k <= n,
                out@.len() == k as int,
                forall|m: int| 0 <= m < k ==> (#[trigger] out@[m])@ == tv@[m],
            decreases n - k,
        {
            let row = &self.projects[k];
            let mut q = row.duplicate();
            if row.category == *category {
                if row.position == a {
                    q.position = a + 1;
                } else if row.position == a + 1 {
                    q.position = a;
                }
            }
            out.push(q);
            proof {
                assert(out@[k as int]@ =~= swap_one(s[k as int], category@, a as int));
            }
            k += 1;
        }
        self.projects = out;
        proof {
            assert(self@ =~= tv@);
            assert forall|m: int| 0 <= m < self@.len() implies (#[trigger] self@[m]).id
                < self.spec_next_id() by {
                assert(tv@[m].id == s[m].id);
            }
        }
    }

    /// Start the row carrying `id` (in `category` at `position`) on the
    /// given day: it becomes started with that start day and moves to
    /// position 1; the rows that were ahead of it step back by one; rows
    /// behind it and other categories are untouched. Fails with `NotFound`,
    /// changing nothing, when no row matches the triple.
    pub fn start_dated(
        &mut self,
        id: u64,
        category: &String,
        position: u64,
        start_date: i64,
    ) -> (r: Result<(), StoreError>)
        requires
            old(self).wf(),
        ensures
            final(self).wf(),
            final(self).spec_next_id() == old(self).spec_next_id(),
            ({
                let present = has_row_at(old(self)@, id as int, category@, position as int);
                match r {
                    Ok(_) => present && final(self)@ == start_transform(
                        old(self)@,
                        id as int,
                        category@,
                        position as int,
                        start_date as int,
                    ),
                    Err(e) => !present && e == StoreError::NotFound && final(self)@ == old(self)@,
                }
            }),
    {
        let j = match self.find_checked(id, category, position) {
            None => {
                return Err(StoreError::NotFound);
            },
            Some(j) => j,
        };
        let ghost s = self@;
        let ghost tv = start_transform(s, id as int, category@, position as int, start_date as int);
        proof {
            lemma_start_ok(s, j as int, start_date as int);
        }
        let n = self.projects.len();
        let mut out: Vec<Project> = Vec::new();
        let mut k: usize = 0;
        while k < n
            invariant
                k <= n,
                out@.len() == k as int,
                forall|m: int| 0 <= m < k ==> (#[trigger] out@[m])@ == tv[m],
            decreases n - k,
        {
            let row = &self.projects[k];
            let mut q = row.duplicate();
            if row.id == id {
                q.status = STATUS_STARTED;
                q.start_date = start_date;
                q.position = 1;
            } else if row.category == *category && row.position <= position {
                proof {
                    assert(s[k as int].id != s[j as int].id);
                    assert(s[k as int].position != s[j as int].position);
                }
                q.position = q.position + 1;
            }
            out.push(q);
            proof {
                assert(out@[k as int]@ =~= start_one(
                    s[k as int],
                    id as int,
                    category@,
                    position as int,
                    start_date as int,
                ));
            }
            k += 1;
        }
        self.projects = out;
        proof {
            assert(self@ =~= tv);
            assert forall|m: int| 0 <= m < self@.len() implies (#[trigger] self@[m]).id
                < self.spec_next_id() by {
                assert(tv[m].id == s[m].id);
            }
        }
        Ok(())
    }

    /// Start the row carrying `id`, stamped with today as its start day: as
    /// [`Store::start_dated`], whose contract gives the full effect.
    pub fn start(&mut self, id: u64, category: &String, position: u64) -> (r: Result<
        (),
        StoreError,
    >)
        requires
            old(self).wf(),
        ensures
            final(self).wf(),
            final(self).spec_next_id() == old(self).spec_next_id(),
            ({
                let present = has_row_at(old(self)@, id as int, category@, position as int);
                match r {
                    Ok(_) => present && exists|d: int|
                        final(self)@ == #[trigger] start_transform(
                            old(self)@,
                            id as int,
                            category@,
                            position as int,
                            d,
                        ),
                    Err(e) => !present && e == StoreError::NotFound && final(self)@ == old(self)@,
                }
            }),
    {
        let d = today();
        self.start_dated(id, category, position, d)
    }

    /// Complete the row carrying `id` on the given day: its status becomes
    /// completed and its completion day is set; its position, category and
    /// every other row stay as they are. Fails with `NotFound`, changing
    /// nothing, when no row carries `id`.
    pub fn complete_dated(&mut self, id: u64, completion_date: i64) -> (r: Result<(), StoreError>)
        requires
            old(self).wf(),
        ensures
            final(self).wf(),
            final(self).spec_next_id() == old(self).spec_next_id(),
            ({
                match r {
                    Ok(_) => has_id(old(self)@, id as int) && final(self)@ == complete_transform(
                        old(self)@,
                        id as int,
                        completion_date as int,
                    ),
                    Err(e) => !has_id(old(self)@, id as int) && e == StoreError::NotFound && final(self)@ == old(self)@,
                }
            }),
    {
        if self.find_row(id).is_none() {
            return Err(StoreError::NotFound);
        }
        let ghost s = self@;
        let ghost tv = complete_transform(s, id as int, completion_date as int);
        let n = self.projects.len();
        let mut out: Vec<Project> = Vec::new();
        let mut k: usize = 0;
        while k < n
            invariant
                k <= n,
                out@.len() == k as int,
                forall|m: int| 0 <= m < k ==> (#[trigger] out@[m])@ == tv[m],
            decreases n - k,
        {
            let row = &self.projects[k];
            let mut q = row.duplicate();
            if row.id == id {
                q.status = STATUS_COMPLETED;
                q.completion_date = completion_date;
            }
            out.push(q);
            proof {
                assert(out@[k as int]@ =~= complete_one(
                    s[k as int],
                    id as int,
                    completion_date as int,
                ));
            }
            k += 1;
        }
        self.projects = out;
        proof {
            assert(self@ =~= tv);
            lemma_same_shape_ok(s, tv);
            assert forall|m: int| 0 <= m < self@.len() implies (#[trigger] self@[m]).id
                < self.spec_next_id() by {
                assert(tv[m].id == s[m].id);
            }
        }
        Ok(())
    }

    /// Complete the row carrying `id`, stamped with today as its completion
    /// day: as [`Store::complete_dated`], whose contract gives the full
    /// effect.
    pub fn complete(&mut self, id: u64) -> (r: Result<(), StoreError>)
        requires
            old(self).wf(),
        ensures
            final(self).wf(),
            final(self).spec_next_id() == old(self).spec_next_id(),
            ({
                match r {
                    Ok(_) => has_id(old(self)@, id as int) && exists|d: int|
                        final(self)@ == #[trigger] complete_transform(old(self)@, id as int, d),
                    Err(e) => !has_id(old(self)@, id as int) && e == StoreError::NotFound && final(self)@ == old(self)@,
                }
            }),
    {
        let d = today();
        self.complete_dated(id, d)
    }

    /// Overwrite the notes of the row carrying `id`; nothing else changes.
    /// Fails with `NotFound`, changing nothing, when no row carries `id`.
    pub fn update_notes(&mut self, id: u64, notes: String) -> (r: Result<(), StoreError>)
        requires
            old(self).wf(),
        ensures
            final(self).wf(),
            final(self).spec_next_id() == old(self).spec_next_id(),
            ({
                match r {
                    Ok(_) => has_id(old(self)@, id as int) && final(self)@ == notes_transform(
                        old(self)@,
                        id as int,
                        notes@,
                    ),
                    Err(e) => !has_id(old(self)@, id as int) && e == StoreError::NotFound && final(self)@ == old(self)@,
                }
            }),
    {
        if self.find_row(id).is_none() {
            return Err(StoreError::NotFound);
        }
        let ghost s = self@;
        let ghost tv = notes_transform(s, id as int, notes@);
        let n = self.projects.len();
        let mut out: Vec<Project> = Vec::new();
        let mut k: usize = 0;
        while k < n
            invariant
                k <= n,
                out@.len() == k as int,
                forall|m: int| 0 <= m < k ==> (#[trigger] out@[m])@ == tv[m],
            decreases n - k,
        {
            let row = &self.projects[k];
            let mut q = row.duplicate();
            if row.id == id {
                q.notes = notes.clone();
            }
            out.push(q);
            proof {
                assert(out@[k as int]@ =~= notes_one(s[k as int], id as int, notes@));
            }
            k += 1;
        }
        self.projects = out;
        proof {
            assert(self@ =~= tv);
            lemma_same_shape_ok(s, tv);
            assert forall|m: int| 0 <= m < self@.len() implies (#[trigger] self@[m]).id
                < self.spec_next_id() by {
                assert(tv[m].id == s[m].id);
            }
        }
        Ok(())
    }

    /// Every row of the store, copied out in table order — the backup
    /// payload.
    pub fn export_all(&self) -> (r: Vec<Project>)
        requires
            self.wf(),
        ensures
            views_of(r@) == self@,
    {
        let n = self.projects.len();
        let mut out: Vec<Project> = Vec::new();
        let mut k: usize = 0;
        while k < n
            invariant
                k <= n,
                views_of(out@) =~= self@.take(k as int),
            decreases n - k,
        {
            out.push(self.projects[k].duplicate());
            proof {
                assert(views_of(out@) =~= self@.take(k as int + 1));
            }
            k += 1;
        }
        proof {
            assert(self@.take(n as int) =~= self@);
        }
        out
    }

    /// Every row of the store, copied out in ascending order of position —
    /// the active board. Rows of different categories with equal positions
    /// keep their table order.
    pub fn list_active(&self) -> (r: Vec<Project>)
        requires
            self.wf(),
        ensures
            views_of(r@) == sort_by_position(self@),
            sorted_by_position(views_of(r@)),
            views_of(r@).to_multiset() == self@.to_multiset(),
    {
        let n = self.projects.len();
        let mut out: Vec<Project> = Vec::new();
        let mut k: usize = 0;
        while k < n
            invariant
                k <= n,
                views_of(out@) == sort_by_position(self@.take(k as int)),
                sorted_by_position(views_of(out@)),
            decreases n - k,
        {
            let p = &self.projects[k];
            let mut idx: usize = 0;
            while idx < out.len() && out[idx].position <= p.position
                invariant
                    idx <= out.len(),
                    forall|m: int| 0 <= m < idx ==> (#[trigger] out@[m])@.position <= p@.position,
                decreases out.len() - idx,
            {
                idx += 1;
            }
            let ghost ov = views_of(out@);
            out.insert(idx, p.duplicate());
            proof {
                assert(views_of(out@) =~= ov.insert(idx as int, p@));
                lemma_insert_by_position_at(ov, p@, idx as int);
                lemma_insert_by_position_sorted(ov, p@);
                assert(self@.take(k as int + 1).drop_last() =~= self@.take(k as int));
                assert(self@.take(k as int + 1).last() == self@[k as int]);
                assert(views_of(out@) =~= sort_by_position(self@.take(k as int + 1)));
            }
            k += 1;
        }
        proof {
            assert(self@.take(n as int) =~= self@);
            lemma_sort_by_position_ensures(self@);
        }
        out
    }

    /// The completed rows, copied out in descending order of completion
    /// day. Block 0 is the whole archive; block `b >= 1` is its `b`-th run
    /// of ten rows, clipped at the end — empty past the archive.
    pub fn list_completed(&self, block: u64) -> (r: Vec<Project>)
        requires
            self.wf(),
        ensures
            views_of(r@) == page_of(sort_by_completion(completed_rows(self@)), block as int),
            sorted_by_completion(views_of(r@)),
    {
        let n = self.projects.len();
        let mut comp: Vec<Project> = Vec::new();
        let mut k: usize = 0;
        while k < n
            invariant
                k <= n,
                views_of(comp@) =~= completed_rows(self@.take(k as int)),
            decreases n - k,
        {
            let p = &self.projects[k];
            if p.status == STATUS_COMPLETED {
                comp.push(p.duplicate());
            }
            proof {
                assert(self@.take(k as int + 1).drop_last() =~= self@.take(k as int));
                assert(self@.take(k as int + 1).last() == self@[k as int]);
                assert(views_of(comp@) =~= completed_rows(self@.take(k as int + 1)));
            }
            k += 1;
        }
        proof {
            assert(self@.take(n as int) =~= self@);
        }
        let ghost cv = views_of(comp@);
        let m = comp.len();
        let mut sorted: Vec<Project> = Vec::new();
        let mut i: usize = 0;
        while i < m
            invariant
                i <= m,
                views_of(sorted@) == sort_by_completion(cv.take(i as int)),
                sorted_by_completion(views_of(sorted@)),
            decreases m - i,
        {
            let p = &comp[i];
            let mut idx: usize = 0;
            while idx < sorted.len() && sorted[idx].completion_date >= p.completion_date
                invariant
                    idx <= sorted.len(),
                    forall|mm: int|
                        0 <= mm < idx ==> (#[trigger] sorted@[mm])@.completion_date
                            >= p@.completion_date,
                decreases sorted.len() - idx,
            {
                idx += 1;
            }
            let ghost ov = views_of(sorted@);
            sorted.insert(idx, p.duplicate());
            proof {
                assert(views_of(sorted@) =~= ov.insert(idx as int, p@));
                lemma_insert_by_completion_at(ov, p@, idx as int);
                lemma_insert_by_completion_sorted(ov, p@);
                assert(cv.take(i as int + 1).drop_last() =~= cv.take(i as int));
                assert(cv.take(i as int + 1).last() == cv[i as int]);
                assert(views_of(sorted@) =~= sort_by_completion(cv.take(i as int + 1)));
            }
            i += 1;
        }
        proof {
            assert(cv.take(m as int) =~= cv);
            lemma_sort_by_completion_ensures(cv);
        }
        let ghost full = sort_by_completion(completed_rows(self@));
        if block == 0 {
            return sorted;
        }
        let total = sorted.len();
        let start = match (block - 1).checked_mul(10) {
            None => {
                proof {
                    assert(page_of(full, block as int) =~= Seq::<ProjectView>::empty());
                }
                return Vec::new();
            },
            Some(v) => v,
        };
        if start >= total as u64 {
            proof {
                assert(page_of(full, block as int) =~= Seq::<ProjectView>::empty());
            }
            return Vec::new();
        }
        let lo = start as usize;
        let hi = if total - lo > 10 {
            lo + 10
        } else {
            total
        };
        let mut out: Vec<Project> = Vec::new();
        let mut t: usize = lo;
        while t < hi
            invariant
                lo <= t <= hi,
                hi <= sorted@.len(),
                views_of(out@) =~= views_of(sorted@).subrange(lo as int, t as int),
            decreases hi - t,
        {
            out.push(sorted[t].duplicate());
            proof {
                assert(views_of(out@) =~= views_of(sorted@).subrange(lo as int, t as int + 1));
            }
            t += 1;
        }
        proof {
            assert(views_of(out@) =~= page_of(full, block as int));
        }
        out
    }

    /// Whether `rows` describes a well-formed table apart from its
    /// identifiers: statuses legal, positions within each category distinct
    /// values of `{1, ..., N}`.
    fn payload_valid(rows: &Vec<Project>) -> (r: bool)
        ensures
            r == (crate::ordering::positions_bounded(views_of(rows@))
                && crate::ordering::positions_distinct(views_of(rows@)) && crate::ordering::statuses_ok(
                views_of(rows@),
            )),
    {
        let ghost pv = views_of(rows@);
        let n = rows.len();
        let mut k: usize = 0;
        while k < n
            invariant
                k <= n,
                forall|m: int| 0 <= m < k ==> 0 <= (#[trigger] pv[m]).status <= STATUS_COMPLETED,
                forall|m: int|
                    0 <= m < k ==> 1 <= (#[trigger] pv[m]).position <= count_cat(
                        pv,
                        pv[m].category,
                    ),
                forall|m1: int, m2: int|
                    0 <= m1 < k && 0 <= m2 < k && m1 != m2 && (#[trigger] pv[m1]).category == (
                    #[trigger] pv[m2]).category ==> pv[m1].position != pv[m2].position,
            decreases n - k,
        {
            let row = &rows[k];
            if row.status > STATUS_COMPLETED {
                proof {
                    assert((#[trigger] pv[k as int]).status > STATUS_COMPLETED);
                }
                return false;
            }
            if row.position < 1 {
                proof {
                    assert((#[trigger] pv[k as int]).position < 1);
                }
                return false;
            }
            let mut cnt: u64 = 0;
            let mut m: usize = 0;
            while m < n
                invariant
                    m <= n,
                    cnt as int == count_cat(pv.take(m as int), pv[k as int].category),
                    cnt as int <= m,
                decreases n - m,
            {
                proof {
                    lemma_count_take_step(pv, pv[k as int].category, m as int);
                }
                if rows[m].category == row.category {
                    cnt = cnt + 1;
                }
                m += 1;
            }
            proof {
                assert(pv.take(n as int) =~= pv);
            }
            if row.position > cnt {
                proof {
                    assert((#[trigger] pv[k as int]).position > count_cat(
                        pv,
                        pv[k as int].category,
                    ));
                }
                return false;
            }
            let mut j: usize = 0;
            while j < k
                invariant
                    j <= k,
                    forall|mm: int|
                        0 <= mm < j ==> !((#[trigger] pv[mm]).category == pv[k as int].category
                            && pv[mm].position == pv[k as int].position),
                decreases k - j,
            {
                if rows[j].category == row.category && rows[j].position == row.position {
                    proof {
                        assert((#[trigger] pv[j as int]).category == (
                        #[trigger] pv[k as int]).category && pv[j as int].position
                            == pv[k as int].position && j as int != k as int);
                    }
                    return false;
                }
                j += 1;
            }
            k += 1;
        }
        true
    }

    /// Restore a backup payload into an empty store: each payload row is
    /// taken as it is — category, position, status, notes and dates — and
    /// given a fresh identifier, in payload order. Fails with
    /// `ConstraintViolation` when the store is not empty (or, after that,
    /// when the identifier space cannot seat the payload), and with
    /// `MalformedImport` when the payload's positions or statuses do not
    /// describe a well-formed table; every failure leaves the store
    /// unchanged.
    pub fn import(&mut self, rows: Vec<Project>) -> (r: Result<(), StoreError>)
        requires
            old(self).wf(),
        ensures
            final(self).wf(),
            ({
                let pv = views_of(rows@);
                let valid = crate::ordering::positions_bounded(pv)
                    && crate::ordering::positions_distinct(pv) && crate::ordering::statuses_ok(pv);
                let fits = old(self).spec_next_id() + pv.len() <= u64::MAX as int;
                match r {
                    Ok(_) => old(self)@.len() == 0 && valid && fits && final(self)@ == import_views(
                        pv,
                        old(self).spec_next_id(),
                    ) && final(self).spec_next_id() == old(self).spec_next_id() + pv.len(),
                    Err(e) => final(self)@ == old(self)@ && final(self).spec_next_id() == old(
                        self,
                    ).spec_next_id() && if old(self)@.len() != 0 {
                        e == StoreError::ConstraintViolation
                    } else if !valid {
                        e == StoreError::MalformedImport
                    } else {
                        !fits && e == StoreError::ConstraintViolation
                    },
                }
            }),
    {
        let ghost pv = views_of(rows@);
        if self.projects.len() > 0 {
            return Err(StoreError::ConstraintViolation);
        }
        if !Self::payload_valid(&rows) {
            return Err(StoreError::MalformedImport);
        }
        let n = rows.len();
        if (n as u64) > u64::MAX - self.next_id {
            return Err(StoreError::ConstraintViolation);
        }
        let base = self.next_id;
        let ghost t = import_views(pv, base as int);
        let mut k: usize = 0;
        while k < n
            invariant
                k <= n,
                self@ =~= t.take(k as int),
            decreases n - k,
        {
            let mut q = rows[k].duplicate();
            q.id = base + (k as u64);
            self.projects.push(q);
            proof {
                assert(self@ =~= t.take(k as int + 1));
            }
            k += 1;
        }
        self.next_id = base + (n as u64);
        proof {
            assert(self@ =~= t);
            lemma_import_views_ok(pv, base as int);
        }
        Ok(())
    }
}

} // verus!
