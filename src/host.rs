//! The host store: placed nodes, each holding a value, keyed by handles that
//! are never reused.

use vstd::prelude::*;

use crate::node_span::NodeId;

verus! {

/// Placed nodes of the host store. Handle `h` names the `h`-th node ever
/// spawned; it holds `Some(value)` while the node is live and `None` once it
/// has been despawned.
pub struct ElementContext {
    slots: Vec<Option<u64>>,
}

/// The live handles among the first `n` slots.
pub open spec fn live_below(s: Seq<Option<u64>>, n: int) -> Set<NodeId> {
    Set::new(|h: NodeId| h < n && h < s.len() && s[h as int] is Some)
}

impl View for ElementContext {
    type V = Seq<Option<u64>>;

    closed spec fn view(&self) -> Seq<Option<u64>> {
        self.slots@
    }
}

impl ElementContext {
    /// Handles of the live nodes.
    pub open spec fn live(&self) -> Set<NodeId> {
        live_below(self@, self@.len() as int)
    }

    /// What handle `h` holds: `Some(value)` while it is live, `None` once
    /// despawned or before it has been handed out.
    pub open spec fn slot(&self, h: NodeId) -> Option<u64> {
        if h < self@.len() {
            self@[h as int]
        } else {
            None
        }
    }

    /// Number of nodes ever spawned; every handle below it has been handed
    /// out, and the next spawn returns it.
    pub open spec fn watermark(&self) -> nat {
        self@.len()
    }

    /// An empty store.
    pub fn new() -> (r: Self)
        ensures
            r@ == Seq::<Option<u64>>::empty(),
    {
        ElementContext { slots: Vec::new() }
    }

    /// Places a new node holding `value` and returns its handle.
    pub fn spawn(&mut self, value: u64) -> (h: NodeId)
        ensures
            h == old(self)@.len(),
            final(self)@ == old(self)@.push(Some(value)),
    {
        let h = self.slots.len();
        self.slots.push(Some(value));
        h
    }

    /// Removes a live node.
    pub fn despawn(&mut self, h: NodeId)
        requires
            old(self).live().contains(h),
        ensures
            final(self)@ == old(self)@.update(h as int, None),
    {
        self.slots.set(h, None);
    }

    /// The value held by node `h`, or `None` where `h` is not live.
    pub fn value(&self, h: NodeId) -> (r: Option<u64>)
        ensures
            r == self.slot(h),
    {
        if h < self.slots.len() {
            self.slots[h]
        } else {
            None
        }
    }

    /// Replaces the value held by a live node.
    pub fn set_value(&mut self, h: NodeId, value: u64)
        requires
            old(self).live().contains(h),
        ensures
            final(self)@ == old(self)@.update(h as int, Some(value)),
    {
        self.slots.set(h, Some(value));
    }

    /// Number of nodes ever spawned.
    pub fn spawned(&self) -> (r: usize)
        ensures
            r == self.watermark(),
    {
        self.slots.len()
    }

    /// Whether node `h` is live.
    pub fn is_live(&self, h: NodeId) -> (r: bool)
        ensures
            r == self.live().contains(h),
    {
        h < self.slots.len() && self.slots[h].is_some()
    }

    /// Number of live nodes.
    pub fn live_count(&self) -> (r: usize)
        ensures
            self.live().finite(),
            r == self.live().len(),
    {
        let mut r: usize = 0;
        let mut i: usize = 0;
        proof {
            assert(live_below(self@, 0) =~= Set::empty());
        }
        while i < self.slots.len()
            invariant
                i <= self@.len(),
                r <= i,
                live_below(self@, i as int).finite(),
                r == live_below(self@, i as int).len(),
            decreases self@.len() - i,
        {
            let ghost s = live_below(self@, i as int);
            if self.slots[i].is_some() {
                proof {
                    assert(live_below(self@, i + 1) =~= s.insert(i));
                }
                r = r + 1;
            } else {
                proof {
                    assert(live_below(self@, i + 1) =~= s);
                }
            }
            i = i + 1;
        }
        r
    }
}

} // verus!
