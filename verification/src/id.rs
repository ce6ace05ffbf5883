use vstd::prelude::*;

verus! {

/// Identifier of a resource, unique within one application.
pub type UId = usize;

/// The identifier that follows `id`: one more, wrapping around to zero after `usize::MAX`.
pub open spec fn successor(id: UId) -> UId {
    if id == usize::MAX {
        0
    } else {
        (id + 1) as UId
    }
}

/// The identifier reached from `id` after `k` steps of `successor`.
pub open spec fn nth_successor(id: UId, k: nat) -> UId
    decreases k,
{
    if k == 0 {
        id
    } else {
        successor(nth_successor(id, (k - 1) as nat))
    }
}

/// The application-wide identifier counter. Each call of `generate_id` hands out the
/// current value and advances it by one.
pub struct IdGenerator {
    next: UId,
}

impl View for IdGenerator {
    type V = UId;

    /// The identifier that the next call of `generate_id` returns.
    closed spec fn view(&self) -> UId {
        self.next
    }
}

impl IdGenerator {
    /// A counter that starts at zero.
    pub fn new() -> (ids: Self)
        ensures
            ids@ == 0,
    {
        IdGenerator { next: 0 }
    }
}

/// Hands out the next identifier and advances the counter (wrapping at `usize::MAX`).
pub fn generate_id(ids: &mut IdGenerator) -> (id: UId)
    ensures
        id == old(ids)@,
        final(ids)@ == successor(id),
{
    let id = ids.next;
    ids.next = if id == usize::MAX {
        0
    } else {
        id + 1
    };
    id
}

/// Identifiers handed out one after another count up by one: as long as the counter does
/// not pass `usize::MAX`, the `k`-th identifier after `id` is `id + k`, so no two
/// identifiers handed out in that stretch are equal.
pub proof fn lemma_ids_count_up(id: UId, k: nat)
    requires
        id + k <= usize::MAX,
    ensures
        nth_successor(id, k) == id + k,
    decreases k,
{
    if k > 0 {
        lemma_ids_count_up(id, (k - 1) as nat);
    }
}

/// Two identifiers handed out at different steps of an uninterrupted run that does not pass
/// `usize::MAX` differ.
pub proof fn lemma_ids_distinct(id: UId, j: nat, k: nat)
    requires
        j < k,
        id + k <= usize::MAX,
    ensures
        nth_successor(id, j) != nth_successor(id, k),
{
    lemma_ids_count_up(id, j);
    lemma_ids_count_up(id, k);
}

} // verus!
