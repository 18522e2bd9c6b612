//! The resource table: a process-wide registry mapping handle identifiers to
//! engine object references, with deferred release.
//!
//! Identifiers are allocated monotonically and never reused within a table's
//! lifetime. Release is never performed synchronously inside a conversion:
//! a handle is first enqueued on the pending drop queue and removed only when
//! the call bridge drains the queue at a safe point.

use vstd::prelude::*;

use std::collections::HashMap;

use crate::errors::ResourceError;

verus! {

broadcast use vstd::std_specs::hash::group_hash_axioms;

/// Mathematical model of the resource table.
#[verifier::ext_equal]
pub struct TableModel {
    /// Live handles: identifier to engine object token.
    pub entries: Map<u64, u64>,
    /// The next identifier the free-identifier generator will hand out.
    pub next: int,
    /// Identifiers awaiting release, in enqueue order.
    pub pending: Seq<u64>,
}

impl TableModel {
    /// Every live identifier was handed out by the generator.
    pub open spec fn wf(self) -> bool {
        &&& 0 <= self.next
        &&& forall|id: u64| self.entries.dom().contains(id) ==> (id as int) < self.next
    }

    /// The identifier is registered and not yet released.
    pub open spec fn live(self, id: u64) -> bool {
        self.entries.dom().contains(id)
    }
}

/// What registering an object does: an object already carrying an identifier
/// keeps it and leaves the table unchanged; an unmarked object gets the next
/// fresh identifier and is inserted.
pub open spec fn spec_register(s: TableModel, marker: Option<u64>, token: u64) -> (u64, TableModel) {
    match marker {
        Some(id) => (id, s),
        None => (
            s.next as u64,
            TableModel {
                entries: s.entries.insert(s.next as u64, token),
                next: s.next + 1,
                pending: s.pending,
            },
        ),
    }
}

/// What looking an identifier up returns.
pub open spec fn spec_lookup(s: TableModel, id: u64) -> Option<u64> {
    if s.entries.dom().contains(id) {
        Some(s.entries[id])
    } else {
        None
    }
}

/// What enqueueing a drop does: appends, never removes.
pub open spec fn spec_enqueue(s: TableModel, id: u64) -> TableModel {
    TableModel { entries: s.entries, next: s.next, pending: s.pending.push(id) }
}

/// The map after removing the queued identifiers one by one.
pub open spec fn remove_ids(m: Map<u64, u64>, pending: Seq<u64>) -> Map<u64, u64>
    decreases pending.len(),
{
    if pending.len() == 0 {
        m
    } else {
        remove_ids(m, pending.drop_last()).remove(pending.last())
    }
}

/// What draining the pending drop queue does: every queued identifier leaves
/// the table, the queue empties, and the generator keeps its position, so
/// identifiers are never reused.
pub open spec fn spec_drain(s: TableModel) -> TableModel {
    TableModel { entries: remove_ids(s.entries, s.pending), next: s.next, pending: Seq::empty() }
}

pub proof fn lemma_remove_ids(m: Map<u64, u64>, pending: Seq<u64>)
    ensures
        forall|id: u64| #![trigger remove_ids(m, pending).dom().contains(id)]
            remove_ids(m, pending).dom().contains(id) <==> (m.dom().contains(id)
                && !pending.contains(id)),
        forall|id: u64| #![trigger remove_ids(m, pending)[id]]
            remove_ids(m, pending).dom().contains(id) ==> remove_ids(m, pending)[id] == m[id],
    decreases pending.len(),
{
    if pending.len() > 0 {
        let p0 = pending.drop_last();
        let last = pending.last();
        lemma_remove_ids(m, p0);
        assert(remove_ids(m, pending) == remove_ids(m, p0).remove(last));
        assert forall|id: u64| pending.contains(id) <==> (p0.contains(id) || id == last) by {
            if pending.contains(id) {
                let i = choose|i: int| 0 <= i < pending.len() && pending[i] == id;
                if i < pending.len() - 1 {
                    assert(p0[i] == id);
                    assert(p0.contains(id));
                }
            }
            if p0.contains(id) {
                let i = choose|i: int| 0 <= i < p0.len() && p0[i] == id;
                assert(pending[i] == id);
            }
            if id == last {
                assert(pending[pending.len() - 1] == id);
            }
        }
        assert forall|id: u64|
            remove_ids(m, pending).dom().contains(id) <==> (m.dom().contains(id)
                && !pending.contains(id)) by {
            assert(remove_ids(m, pending).dom() =~= remove_ids(m, p0).dom().remove(last));
            assert(remove_ids(m, p0).dom().contains(id) <==> (m.dom().contains(id)
                && !p0.contains(id)));
        }
        assert forall|id: u64| remove_ids(m, pending).dom().contains(id) implies remove_ids(
            m,
            pending,
        )[id] == m[id] by {
            assert(remove_ids(m, p0).dom().contains(id));
            assert(remove_ids(m, pending)[id] == remove_ids(m, p0)[id]);
        }
    }
}

/// The registry of live resource handles and the pending drop queue.
pub struct ResourceTable {
    entries: HashMap<u64, u64>,
    next_id: u64,
    pending: Vec<u64>,
}

impl View for ResourceTable {
    type V = TableModel;

    closed spec fn view(&self) -> TableModel {
        TableModel { entries: self.entries@, next: self.next_id as int, pending: self.pending@ }
    }
}

impl ResourceTable {
    /// An empty table whose generator starts at zero.
    pub fn new() -> (t: ResourceTable)
        ensures
            t@ == (TableModel { entries: Map::<u64, u64>::empty(), next: 0, pending: Seq::<
                u64,
            >::empty() }),
            t@.wf(),
    {
        ResourceTable { entries: HashMap::new(), next_id: 0, pending: Vec::new() }
    }

    /// If the object already carries an identifier (its marker), return it
    /// unchanged; otherwise allocate a fresh identifier, insert the object's
    /// token under it, and return it so the caller can mark the object for
    /// future idempotent lookups.
    pub fn register_or_lookup(&mut self, marker: Option<u64>, token: u64) -> (id: u64)
        requires
            old(self)@.wf(),
            marker is None ==> old(self)@.next < u64::MAX as int,
        ensures
            final(self)@.wf(),
            (id, final(self)@) == spec_register(old(self)@, marker, token),
    {
        match marker {
            Some(id) => {
                proof {
                    assert(self@.wf());
                }
                id
            },
            None => {
                let ghost pre = self@;
                let id = self.next_id;
                self.entries.insert(id, token);
                self.next_id = self.next_id + 1;
                proof {
                    assert(self.entries@ == pre.entries.insert(id, token));
                    assert forall|id2: u64| self.entries@.dom().contains(id2) implies (
                    id2 as int) < self.next_id as int by {
                        if id2 != id {
                            assert(pre.entries.dom().contains(id2));
                        }
                    }
                    assert(self@.wf());
                }
                id
            },
        }
    }

    /// The object token registered under the identifier, or `NotFound` for
    /// an identifier that is unknown or already released.
    pub fn lookup(&self, id: u64) -> (r: Result<u64, ResourceError>)
        ensures
            r == (match spec_lookup(self@, id) {
                Some(token) => Ok::<u64, ResourceError>(token),
                None => Err(ResourceError::NotFound(id)),
            }),
    {
        match self.entries.get(&id) {
            Some(token) => Ok(*token),
            None => Err(ResourceError::NotFound(id)),
        }
    }

    /// Whether the identifier is live.
    pub fn is_live(&self, id: u64) -> (r: bool)
        ensures
            r == self@.live(id),
    {
        self.entries.contains_key(&id)
    }

    /// Append the identifier to the pending drop queue; nothing is removed
    /// here.
    pub fn enqueue_drop(&mut self, id: u64)
        ensures
            final(self)@ == spec_enqueue(old(self)@, id),
    {
        self.pending.push(id);
    }

    /// Remove every queued identifier from the table and clear the queue.
    /// Invoked by the call bridge between completed invocations, never during
    /// a conversion.
    pub fn drain_drops(&mut self)
        requires
            old(self)@.wf(),
        ensures
            final(self)@.wf(),
            final(self)@ == spec_drain(old(self)@),
    {
        let ghost orig = self@;
        let mut i: usize = 0;
        while i < self.pending.len()
            invariant
                orig.wf(),
                0 <= i <= self.pending.len(),
                self.pending@ == orig.pending,
                self.next_id as int == orig.next,
                self.entries@ == remove_ids(orig.entries, orig.pending.take(i as int)),
            decreases self.pending.len() - i,
        {
            let id = self.pending[i];
            self.entries.remove(&id);
            proof {
                assert(orig.pending.take(i + 1 as int).drop_last() == orig.pending.take(i as int));
                assert(orig.pending.take(i + 1 as int).last() == id);
            }
            i = i + 1;
        }
        proof {
            assert(orig.pending.take(self.pending@.len() as int) == orig.pending);
            lemma_remove_ids(orig.entries, orig.pending);
        }
        self.pending = Vec::new();
        proof {
            assert forall|id: u64| self.entries@.dom().contains(id) implies (id as int)
                < self@.next by {
                assert(remove_ids(orig.entries, orig.pending).dom().contains(id));
                assert(orig.entries.dom().contains(id));
            }
            assert(self@.wf());
            assert(self@ =~= spec_drain(orig));
        }
    }

    /// How many identifiers await release.
    pub fn pending_count(&self) -> (n: usize)
        ensures
            n == self@.pending.len(),
    {
        self.pending.len()
    }
}

} // verus!
