//! The laws the store keeps across operations, beyond each operation's own
//! contract: moving a row up and back down changes nothing, and a backup
//! restored into an empty store reproduces the rows.

use vstd::prelude::*;

use crate::models::same_except_id;
use crate::models::ProjectView;
use crate::ordering::import_views;
use crate::ordering::lemma_import_views_ok;
use crate::ordering::swap_one;
use crate::ordering::swap_transform;
use crate::ordering::table_ok;

verus! {

/// Law: two swaps of the same neighbouring positions cancel. Moving a row
/// up from position `k > 1` swaps positions `k - 1` and `k` of its
/// category, and moving it down again — it now stands at `k - 1`, below the
/// category's last place — swaps the same pair, so the table returns to
/// exactly its original arrangement.
pub proof fn lemma_move_round_trip(s: Seq<ProjectView>, c: Seq<char>, a: int)
    ensures
        swap_transform(swap_transform(s, c, a), c, a) == s,
{
    let t = swap_transform(s, c, a);
    let u = swap_transform(t, c, a);
    assert forall|k: int| 0 <= k < s.len() implies #[trigger] u[k] == s[k] by {
        assert(swap_one(swap_one(s[k], c, a), c, a) =~= s[k]);
    }
    assert(u =~= s);
}

/// Law: a backup of a well-formed table, restored into an empty store,
/// reproduces an equivalent table — row for row the same name, category,
/// position, status, notes and dates; only the identifiers are fresh. The
/// restored table is well-formed again.
pub proof fn lemma_restore_equivalent(s: Seq<ProjectView>, base: int)
    requires
        table_ok(s),
    ensures
        import_views(s, base).len() == s.len(),
        forall|k: int|
            0 <= k < s.len() ==> same_except_id(#[trigger] import_views(s, base)[k], s[k]),
        table_ok(import_views(s, base)),
{
    lemma_import_views_ok(s, base);
    assert forall|k: int| 0 <= k < s.len() implies same_except_id(
        #[trigger] import_views(s, base)[k],
        s[k],
    ) by {
        let t = import_views(s, base)[k];
        assert((ProjectView { id: 0, ..t }) =~= (ProjectView { id: 0, ..s[k] }));
    }
}

} // verus!
