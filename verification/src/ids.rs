//! Identifiers of containers, pages, slots and values.

use vstd::prelude::*;

verus! {

/// Identifies a container (a heap file) within a storage manager.
pub type ContainerId = u16;

/// Index of a page within its heap file.
pub type PageId = u16;

/// Index of a value within its page.
pub type SlotId = u16;

/// The transaction on whose behalf a call is made.
#[derive(Clone, Copy, Debug, PartialEq, Eq, Structural)]
pub struct TransactionId {
    pub id: u64,
}

/// What a caller intends to do with what it asks for.
#[derive(Clone, Copy, Debug, PartialEq, Eq, Structural)]
pub enum Permissions {
    ReadOnly,
    ReadWrite,
}

/// What a container is used for.
#[derive(Clone, Copy, Debug, PartialEq, Eq, Structural)]
pub enum StateType {
    BaseTable,
    MatView,
    HashTable,
    Tree,
}

/// Where a value lies. A page or slot that is absent is not known (yet).
#[derive(Clone, Copy, Debug, PartialEq, Eq, Structural)]
pub struct ValueId {
    pub container_id: ContainerId,
    pub page_id: Option<PageId>,
    pub slot_id: Option<SlotId>,
}

impl ValueId {
    /// The id of the value in the given slot.
    pub fn new_slot(container_id: ContainerId, page_id: PageId, slot_id: SlotId) -> (id: Self)
        ensures
            id == Self::slot(container_id, page_id, slot_id),
    {
        ValueId { container_id, page_id: Some(page_id), slot_id: Some(slot_id) }
    }

    /// What `new_slot` returns.
    pub open spec fn slot(container_id: ContainerId, page_id: PageId, slot_id: SlotId) -> Self {
        ValueId { container_id, page_id: Some(page_id), slot_id: Some(slot_id) }
    }
}

/// The id of the value in a slot names the container, the page and the slot.
pub proof fn lemma_slot_id(container_id: ContainerId, page_id: PageId, slot_id: SlotId)
    ensures
        ValueId::slot(container_id, page_id, slot_id).container_id == container_id,
        ValueId::slot(container_id, page_id, slot_id).page_id == Some(page_id),
        ValueId::slot(container_id, page_id, slot_id).slot_id == Some(slot_id),
{
}

} // verus!
