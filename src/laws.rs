use vstd::prelude::*;
use crate::model::{CreateWorkshopPayload, Message, Workshop};
use crate::store::{
    workshop_payload_invalid, create_workshop_post, delete_workshop_post, expense_total, keyed, lemma_ids_unique,
    lists_workshops, stock_total, tables_holding, Store,
};
use crate::vault::lemma_listing_unique;

verus! {

/// A valid workshop payload, while ids remain, is stored: the new workshop
/// gets an id above every id in use before the call and above the last id
/// handed out (so above the ids of records deleted since), and the store
/// afterwards holds that very record under it.
pub proof fn lemma_created_workshop_is_found(
    before: Store,
    after: Store,
    payload: CreateWorkshopPayload,
    now: u64,
    r: Result<Workshop, Message>,
)
    requires
        before.wf(),
        !workshop_payload_invalid(payload),
        before.last_id() < u64::MAX,
        create_workshop_post(before, after, payload, now, r),
    ensures
        r is Ok,
        r matches Ok(w) ==> {
            &&& w.id == before.last_id() + 1
            &&& w.id > before.last_id()
            &&& forall|k: u64| #[trigger] tables_holding(before, k) > 0 ==> k < w.id
            &&& after.workshops().contains_key(w.id)
            &&& after.workshops()[w.id] == w
        },
{
    if let Ok(w) = r {
        assert forall|k: u64| #[trigger] tables_holding(before, k) > 0 implies k < w.id by {
            lemma_ids_unique(before, k);
        }
    }
}

/// An id is gone for good once no workshop holds it and the allocator has
/// passed it: only `create_workshop` adds a workshop under a new id, and it
/// takes one above the last.
pub open spec fn gone(s: Store, id: u64) -> bool {
    !s.workshops().contains_key(id) && id <= s.last_id()
}

/// A deleted workshop is gone: it is no longer found and its id was handed
/// out already.
pub proof fn lemma_deleted_is_gone(before: Store, after: Store, id: u64, r: Result<Message, Message>)
    requires
        before.wf(),
        delete_workshop_post(before, after, id, r),
        r is Ok,
    ensures
        gone(after, id),
{
    lemma_ids_unique(before, id);
}

/// Creating a workshop leaves a gone id gone, whatever the outcome.
pub proof fn lemma_create_keeps_gone(
    before: Store,
    after: Store,
    payload: CreateWorkshopPayload,
    now: u64,
    r: Result<Workshop, Message>,
    id: u64,
)
    requires
        gone(before, id),
        create_workshop_post(before, after, payload, now, r),
    ensures
        gone(after, id),
{
}

/// Deleting a workshop leaves a gone id gone: a delete only removes.
pub proof fn lemma_delete_keeps_gone(
    before: Store,
    after: Store,
    other: u64,
    r: Result<Message, Message>,
    id: u64,
)
    requires
        gone(before, id),
        delete_workshop_post(before, after, other, r),
    ensures
        gone(after, id),
{
}

/// Any step that never lowers the last id, and adds workshops only under
/// keys already present or above the last id, leaves a gone id gone. The
/// creations of projects, staff, expenses and stock entries keep the
/// workshops as they were, and `update_workshop_details` rewrites only a
/// workshop that is there, so each of them is such a step.
pub proof fn lemma_step_keeps_gone(before: Store, after: Store, id: u64)
    requires
        gone(before, id),
        before.last_id() <= after.last_id(),
        forall|k: u64| #[trigger] after.workshops().contains_key(k) ==> before.workshops().contains_key(k)
            || k > before.last_id(),
    ensures
        gone(after, id),
{
}

/// Listing the workshops of one store twice gives the same sequence.
pub proof fn lemma_listing_stable(s: Store, first: Seq<Workshop>, second: Seq<Workshop>)
    requires
        lists_workshops(first, s.workshops()),
        lists_workshops(second, s.workshops()),
    ensures
        first == second,
{
    lemma_listing_unique(keyed(first), keyed(second), s.workshops());
    assert(first.len() == keyed(first).len());
    assert(second.len() == keyed(second).len());
    assert forall|i: int| 0 <= i < first.len() implies first[i] == second[i] by {
        assert(keyed(first)[i] == keyed(second)[i]);
    }
    assert(first =~= second);
}

/// Deleting a workshop makes its id unknown as a workshop, while its
/// projects, staff, expenses and stock entries stay, and so do their totals.
pub proof fn lemma_delete_keeps_children(
    before: Store,
    after: Store,
    workshop_id: u64,
    r: Result<Message, Message>,
)
    requires
        delete_workshop_post(before, after, workshop_id, r),
        r is Ok,
    ensures
        !after.workshops().contains_key(workshop_id),
        after.projects() == before.projects(),
        after.employees() == before.employees(),
        after.expenses() == before.expenses(),
        after.inventories() == before.inventories(),
        expense_total(after.expenses(), workshop_id) == expense_total(before.expenses(), workshop_id),
        stock_total(after.inventories(), workshop_id) == stock_total(
            before.inventories(),
            workshop_id,
        ),
{
}

} // verus!
