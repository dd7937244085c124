//! The view lifecycle: `build`, `rebuild`, `nodes`, `collect`, `raze`, and a
//! leaf view that places a single node.

use vstd::prelude::*;

use crate::host::ElementContext;
use crate::node_span::{NodeId, NodeSpan};

verus! {

/// Every handle in `nodes` was spawned between `before` and `after`.
pub open spec fn fresh(nodes: Set<NodeId>, before: ElementContext, after: ElementContext) -> bool {
    forall|h: NodeId| #[trigger] nodes.contains(h) ==> before.watermark() <= h < after.watermark()
}

/// Every node placed between `before` and `after` is in `nodes`.
pub open spec fn placed_within(before: ElementContext, after: ElementContext, nodes: Set<NodeId>) -> bool {
    forall|h: NodeId| before.watermark() <= h < after.watermark() ==> #[trigger] nodes.contains(h)
}

/// Every handle below `before`'s watermark that is not in `changed` holds in
/// `after` what it held in `before`.
pub open spec fn unchanged_except(before: ElementContext, after: ElementContext, changed: Set<NodeId>) -> bool {
    forall|h: NodeId|
        h < before.watermark() && !changed.contains(h) ==> #[trigger] after.slot(h) == before.slot(h)
}

/// A node-producing unit of the tree. The view value is the description of
/// one update cycle; `State` is what persists between cycles at the view's
/// position, and owns the placed nodes that the view created.
pub trait NodeView: Sized {
    type State;

    /// The description is well formed: every method may be called on it.
    spec fn wf(&self) -> bool;

    /// `state` was produced by `build` and may be rebuilt, collected or razed.
    spec fn built(state: &Self::State) -> bool;

    /// The placed nodes that `state` owns.
    spec fn owned(state: &Self::State) -> Set<NodeId>;

    /// `next` is `prev` patched in place: the same component, not a
    /// replacement.
    spec fn retains(prev: &Self::State, next: &Self::State) -> bool;

    /// The output nodes of `state`, flattened, in order.
    spec fn span(state: &Self::State) -> Seq<NodeId>;

    /// `r` is the span that `state` reports.
    spec fn shown_span(state: &Self::State, r: NodeSpan) -> bool;

    /// A state reports one span: any two spans it reports are the same.
    proof fn lemma_shown_span_unique(state: &Self::State, r1: NodeSpan, r2: NodeSpan)
        requires
            Self::shown_span(state, r1),
            Self::shown_span(state, r2),
        ensures
            r1.same(r2),
    ;

    /// The nodes of `state` in `ecx` show this description.
    spec fn shows(&self, state: &Self::State, ecx: ElementContext) -> bool;

    /// What `state` shows depends only on the nodes it owns.
    proof fn lemma_shows_frame(&self, state: &Self::State, e1: ElementContext, e2: ElementContext)
        requires
            self.shows(state, e1),
            forall|h: NodeId| #[trigger] Self::owned(state).contains(h) ==> e2.slot(h) == e1.slot(h),
        ensures
            self.shows(state, e2),
    ;

    /// Reports the current output nodes.
    fn nodes(&self, ecx: &ElementContext, state: &Self::State) -> (r: NodeSpan)
        requires
            self.wf(),
            Self::built(state),
        ensures
            r.flat() == Self::span(state),
            Self::shown_span(state, r),
    ;

    /// Creates the state and places its nodes.
    fn build(&self, ecx: &mut ElementContext) -> (state: Self::State)
        requires
            self.wf(),
        ensures
            Self::built(&state),
            self.shows(&state, *final(ecx)),
            final(ecx).live() == old(ecx).live().union(Self::owned(&state)),
            fresh(Self::owned(&state), *old(ecx), *final(ecx)),
            placed_within(*old(ecx), *final(ecx), Self::owned(&state)),
            unchanged_except(*old(ecx), *final(ecx), Set::empty()),
            old(ecx).watermark() <= final(ecx).watermark(),
    ;

    /// Brings `state` into agreement with this (possibly changed)
    /// description, keeping its identity.
    fn rebuild(&self, ecx: &mut ElementContext, state: &mut Self::State)
        requires
            self.wf(),
            Self::built(old(state)),
            Self::owned(old(state)).subset_of(old(ecx).live()),
        ensures
            Self::built(final(state)),
            Self::retains(old(state), final(state)),
            self.shows(final(state), *final(ecx)),
            unchanged_except(*old(ecx), *final(ecx), Self::owned(old(state))),
            final(ecx).live() == old(ecx).live().difference(Self::owned(old(state))).union(
                Self::owned(final(state)),
            ),
            fresh(
                Self::owned(final(state)).difference(Self::owned(old(state))),
                *old(ecx),
                *final(ecx),
            ),
            placed_within(*old(ecx), *final(ecx), Self::owned(final(state))),
            old(ecx).watermark() <= final(ecx).watermark(),
    ;

    /// Recomputes the output nodes. The store is left as it is, and the
    /// state keeps what it owns and shows.
    fn collect(&self, ecx: &mut ElementContext, state: &mut Self::State) -> (r: NodeSpan)
        requires
            self.wf(),
            Self::built(old(state)),
        ensures
            Self::built(final(state)),
            Self::owned(final(state)) == Self::owned(old(state)),
            Self::span(final(state)) == Self::span(old(state)),
            *final(ecx) == *old(ecx),
            r.flat() == Self::span(final(state)),
            Self::shown_span(final(state), r),
    ;

    /// Removes every node that `state` owns.
    fn raze(&self, ecx: &mut ElementContext, state: &mut Self::State)
        requires
            self.wf(),
            Self::built(old(state)),
            Self::owned(old(state)).subset_of(old(ecx).live()),
        ensures
            final(ecx).live() == old(ecx).live().difference(Self::owned(old(state))),
            unchanged_except(*old(ecx), *final(ecx), Self::owned(old(state))),
            final(ecx).watermark() == old(ecx).watermark(),
    ;
}

/// A leaf view: one placed node holding `value`.
pub struct Element {
    pub value: u64,
}

/// The state of an [`Element`]: the handle of its node.
pub struct ElementState {
    pub node: NodeId,
}

impl Element {
    pub fn new(value: u64) -> (r: Self)
        ensures
            r.value == value,
    {
        Element { value }
    }
}

impl ElementState {
    /// The handle of the node.
    pub fn node(&self) -> (r: NodeId)
        ensures
            r == self.node,
    {
        self.node
    }
}

impl NodeView for Element {
    type State = ElementState;

    open spec fn wf(&self) -> bool {
        true
    }

    open spec fn built(state: &ElementState) -> bool {
        true
    }

    open spec fn owned(state: &ElementState) -> Set<NodeId> {
        set![state.node]
    }

    open spec fn retains(prev: &ElementState, next: &ElementState) -> bool {
        prev.node == next.node
    }

    open spec fn span(state: &ElementState) -> Seq<NodeId> {
        seq![state.node]
    }

    open spec fn shown_span(state: &ElementState, r: NodeSpan) -> bool {
        r == NodeSpan::Node(state.node)
    }

    proof fn lemma_shown_span_unique(state: &ElementState, r1: NodeSpan, r2: NodeSpan) {
    }

    open spec fn shows(&self, state: &ElementState, ecx: ElementContext) -> bool {
        ecx.slot(state.node) == Some(self.value)
    }

    proof fn lemma_shows_frame(&self, state: &ElementState, e1: ElementContext, e2: ElementContext) {
        assert(Self::owned(state).contains(state.node));
    }

    fn nodes(&self, ecx: &ElementContext, state: &ElementState) -> (r: NodeSpan) {
        NodeSpan::Node(state.node)
    }

    fn build(&self, ecx: &mut ElementContext) -> (state: ElementState)
        ensures
            final(ecx)@ == old(ecx)@.push(Some(self.value)),
    {
        let node = ecx.spawn(self.value);
        proof {
            assert(final(ecx).live() =~= old(ecx).live().union(set![node]));
        }
        ElementState { node }
    }

    fn rebuild(&self, ecx: &mut ElementContext, state: &mut ElementState)
        ensures
            *final(state) == *old(state),
            final(ecx)@ == old(ecx)@.update(old(state).node as int, Some(self.value)),
            old(ecx)@[old(state).node as int] == Some(self.value) ==> *final(ecx) == *old(ecx),
    {
        let node = state.node;
        proof {
            assert(set![node].contains(node));
        }
        if ecx.value(node) != Some(self.value) {
            ecx.set_value(node, self.value);
        } else {
            proof {
                assert(old(ecx)@.update(node as int, Some(self.value)) =~= old(ecx)@);
            }
        }
        proof {
            assert(final(ecx).live() =~= old(ecx).live());
            assert(final(ecx).live() =~= old(ecx).live().difference(set![node]).union(set![node]));
            assert(set![node].difference(set![node]) =~= Set::empty());
        }
    }

    fn collect(&self, ecx: &mut ElementContext, state: &mut ElementState) -> (r: NodeSpan) {
        NodeSpan::Node(state.node)
    }

    fn raze(&self, ecx: &mut ElementContext, state: &mut ElementState)
        ensures
            final(ecx)@ == old(ecx)@.update(old(state).node as int, None),
    {
        proof {
            assert(set![state.node].contains(state.node));
        }
        ecx.despawn(state.node);
        proof {
            assert(final(ecx).live() =~= old(ecx).live().difference(set![state.node]));
        }
    }
}

} // verus!
