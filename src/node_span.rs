//! The output of a view: zero, one or many placed nodes.

use vstd::prelude::*;

verus! {

broadcast use vstd::std_specs::vec::group_vec_axioms;

/// Handle of a placed node in the host store.
pub type NodeId = usize;

/// Zero, one, or an ordered sequence of spans. A span describes placed nodes;
/// it does not own them.
pub enum NodeSpan {
    Empty,
    Node(NodeId),
    Fragment(Vec<NodeSpan>),
}

impl NodeSpan {
    /// The handles that the span holds, flattened, in order.
    pub open spec fn flat(self) -> Seq<NodeId>
        decreases self,
    {
        match self {
            NodeSpan::Empty => Seq::empty(),
            NodeSpan::Node(h) => seq![h],
            NodeSpan::Fragment(v) => flat_prefix(v@, v@.len() as int),
        }
    }

    /// `self` and `other` are the same span: the same variant, the same
    /// handle, and children that are pairwise the same.
    pub open spec fn same(self, other: NodeSpan) -> bool
        decreases self,
    {
        match self {
            NodeSpan::Empty => other is Empty,
            NodeSpan::Node(h) => other == NodeSpan::Node(h),
            NodeSpan::Fragment(v) => match other {
                NodeSpan::Fragment(w) => v@.len() == w@.len() && same_prefix(v@, w@, v@.len() as int),
                _ => false,
            },
        }
    }

    /// The handles of the span, flattened, in order.
    pub fn flatten(&self) -> (r: Vec<NodeId>)
        ensures
            r@ == self.flat(),
        decreases self,
    {
        match self {
            NodeSpan::Empty => Vec::new(),
            NodeSpan::Node(h) => {
                let mut r: Vec<NodeId> = Vec::new();
                r.push(*h);
                r
            },
            NodeSpan::Fragment(v) => {
                let mut r: Vec<NodeId> = Vec::new();
                let mut i: usize = 0;
                while i < v.len()
                    invariant
                        i <= v@.len(),
                        *self == NodeSpan::Fragment(*v),
                        r@ == flat_prefix(v@, i as int),
                    decreases v@.len() - i,
                {
                    assert(decreases_to!(*self => (*self)->Fragment_0));
                    assert(decreases_to!(*v => v[i as int]));
                    let mut part = v[i].flatten();
                    r.append(&mut part);
                    i = i + 1;
                }
                r
            },
        }
    }
}

/// The handles of the first `n` spans of `s`, flattened, in order.
pub open spec fn flat_prefix(s: Seq<NodeSpan>, n: int) -> Seq<NodeId>
    decreases s, n,
{
    if n <= 0 || n > s.len() {
        Seq::empty()
    } else {
        flat_prefix(s, n - 1) + s[n - 1].flat()
    }
}

/// Appending a span to a sequence appends its handles to the flattened
/// prefix.
pub proof fn lemma_flat_prefix_push(s: Seq<NodeSpan>, x: NodeSpan, n: int)
    requires
        0 <= n <= s.len(),
    ensures
        flat_prefix(s.push(x), n) == flat_prefix(s, n),
        n == s.len() ==> flat_prefix(s.push(x), n + 1) == flat_prefix(s, n) + x.flat(),
    decreases n,
{
    if n > 0 {
        lemma_flat_prefix_push(s, x, n - 1);
        assert(s.push(x)[n - 1] == s[n - 1]);
    }
}

/// The first `n` spans of `a` and of `b` are pairwise the same.
pub open spec fn same_prefix(a: Seq<NodeSpan>, b: Seq<NodeSpan>, n: int) -> bool
    decreases a, n,
{
    if n <= 0 {
        true
    } else if n > a.len() || n > b.len() {
        false
    } else {
        same_prefix(a, b, n - 1) && a[n - 1].same(b[n - 1])
    }
}

/// Spans that are pairwise the same are the same prefix.
pub proof fn lemma_same_prefix(a: Seq<NodeSpan>, b: Seq<NodeSpan>, n: int)
    requires
        0 <= n <= a.len(),
        n <= b.len(),
        forall|k: int| 0 <= k < n ==> (#[trigger] a[k]).same(b[k]),
    ensures
        same_prefix(a, b, n),
    decreases n,
{
    if n > 0 {
        lemma_same_prefix(a, b, n - 1);
        assert(a[n - 1].same(b[n - 1]));
    }
}

} // verus!
