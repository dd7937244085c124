//! A keyed list view: one child view per item, matched across update cycles
//! by key, so that an item whose key persists keeps its state.

use std::marker::PhantomData;
use std::ops::Range;

use vstd::prelude::*;

use crate::align::{
    align, align_all, best_key_run, distinct, key_run, lemma_align_keeps_common, lemma_align_unchanged,
    same_order,
};
use crate::host::ElementContext;
use crate::lcs::{agrees, decided, is_best_run, is_run, lcs};
use crate::node_span::{flat_prefix, lemma_flat_prefix_push, NodeId, NodeSpan};
use crate::view::{fresh, placed_within, unchanged_except, NodeView};

verus! {

/// One slot of a keyed list: the child view description, the child's state
/// and the item's key. A slot that has not been built yet holds no view and
/// no state.
pub struct KeyedListItem<Key, V: NodeView> {
    pub view: Option<V>,
    pub state: Option<V::State>,
    pub key: Key,
}

/// The keys of a sequence of slots.
pub open spec fn keys_of<Key, V: NodeView>(items: Seq<KeyedListItem<Key, V>>) -> Seq<Key> {
    items.map_values(|it: KeyedListItem<Key, V>| it.key)
}

/// Every slot is built.
pub open spec fn slots_built<Key, V: NodeView>(s: Seq<KeyedListItem<Key, V>>) -> bool {
    forall|i: int| 0 <= i < s.len() ==> #[trigger] s[i].is_built()
}

/// No placed node is owned by two slots.
pub open spec fn slots_disjoint<Key, V: NodeView>(s: Seq<KeyedListItem<Key, V>>) -> bool {
    forall|i: int, j: int, h: NodeId|
        0 <= i < s.len() && 0 <= j < s.len() && i != j && #[trigger] s[i].owned().contains(h)
            ==> !#[trigger] s[j].owned().contains(h)
}

/// The placed nodes that the slots own.
pub open spec fn slots_owned<Key, V: NodeView>(s: Seq<KeyedListItem<Key, V>>) -> Set<NodeId> {
    Set::new(|h: NodeId| exists|i: int| 0 <= i < s.len() && #[trigger] s[i].owned().contains(h))
}

/// The output nodes of the first `n` slots, flattened, in order.
pub open spec fn slots_span<Key, V: NodeView>(s: Seq<KeyedListItem<Key, V>>, n: int) -> Seq<NodeId>
    decreases n,
{
    if n <= 0 || n > s.len() {
        Seq::empty()
    } else {
        slots_span(s, n - 1) + V::span(&s[n - 1].state->0)
    }
}

/// `r` is the span that the slots report: `Empty` for no slot, otherwise a
/// fragment with, in order, the span that each slot's state reports.
pub open spec fn slots_shown<Key, V: NodeView>(s: Seq<KeyedListItem<Key, V>>, r: NodeSpan) -> bool {
    if s.len() == 0 {
        r is Empty
    } else {
        &&& r is Fragment
        &&& r->Fragment_0@.len() == s.len()
        &&& forall|k: int| 0 <= k < s.len() ==> V::shown_span(&s[k].state->0, #[trigger] r->Fragment_0@[k])
    }
}

/// The slots report one span: `nodes` and `collect` on the same slots give
/// the same span, child by child.
pub proof fn lemma_slots_shown_unique<Key, V: NodeView>(s: Seq<KeyedListItem<Key, V>>, r1: NodeSpan, r2: NodeSpan)
    requires
        slots_shown(s, r1),
        slots_shown(s, r2),
    ensures
        r1.same(r2),
{
    if s.len() > 0 {
        let c1 = r1->Fragment_0@;
        let c2 = r2->Fragment_0@;
        assert forall|k: int| 0 <= k < c1.len() implies (#[trigger] c1[k]).same(c2[k]) by {
            V::lemma_shown_span_unique(&s[k].state->0, c1[k], c2[k]);
        }
        crate::node_span::lemma_same_prefix(c1, c2, c1.len() as int);
    }
}

/// Each next slot that the alignment of the keys matched holds the state of
/// its previous slot, patched in place.
pub open spec fn slots_retained<Key, V: NodeView>(
    prev: Seq<KeyedListItem<Key, V>>,
    next: Seq<KeyedListItem<Key, V>>,
) -> bool {
    forall|j: int| #[trigger]
        align_all(keys_of(prev), keys_of(next)).contains_key(j) ==> V::retains(
            &prev[align_all(keys_of(prev), keys_of(next))[j]].state->0,
            &next[j].state->0,
        )
}

proof fn lemma_owned_update<Key, V: NodeView>(
    s: Seq<KeyedListItem<Key, V>>,
    i: int,
    it: KeyedListItem<Key, V>,
)
    requires
        0 <= i < s.len(),
        slots_disjoint(s),
    ensures
        slots_owned(s.update(i, it)) == slots_owned(s).difference(s[i].owned()).union(it.owned()),
{
    let t = s.update(i, it);
    assert forall|h: NodeId| slots_owned(t).contains(h) implies slots_owned(s).difference(
        s[i].owned(),
    ).union(it.owned()).contains(h) by {
        let k = choose|k: int| 0 <= k < t.len() && #[trigger] t[k].owned().contains(h);
        if k != i {
            assert(s[k].owned().contains(h));
        }
    }
    assert forall|h: NodeId| slots_owned(s).difference(s[i].owned()).union(it.owned()).contains(
        h,
    ) implies slots_owned(t).contains(h) by {
        if it.owned().contains(h) {
            assert(t[i].owned().contains(h));
        } else {
            let k = choose|k: int| 0 <= k < s.len() && #[trigger] s[k].owned().contains(h);
            assert(t[k].owned().contains(h));
        }
    }
    assert(slots_owned(t) =~= slots_owned(s).difference(s[i].owned()).union(it.owned()));
}

proof fn lemma_owned_push<Key, V: NodeView>(s: Seq<KeyedListItem<Key, V>>, it: KeyedListItem<Key, V>)
    ensures
        slots_owned(s.push(it)) == slots_owned(s).union(it.owned()),
{
    let t = s.push(it);
    assert forall|h: NodeId| slots_owned(t).contains(h) implies slots_owned(s).union(
        it.owned(),
    ).contains(h) by {
        let k = choose|k: int| 0 <= k < t.len() && #[trigger] t[k].owned().contains(h);
        if k < s.len() {
            assert(s[k].owned().contains(h));
        }
    }
    assert forall|h: NodeId| slots_owned(s).union(it.owned()).contains(h) implies slots_owned(
        t,
    ).contains(h) by {
        if it.owned().contains(h) {
            assert(t[s.len() as int].owned().contains(h));
        } else {
            let k = choose|k: int| 0 <= k < s.len() && #[trigger] s[k].owned().contains(h);
            assert(t[k].owned().contains(h));
        }
    }
    assert(slots_owned(t) =~= slots_owned(s).union(it.owned()));
}

proof fn lemma_span_same<Key, V: NodeView>(
    s: Seq<KeyedListItem<Key, V>>,
    t: Seq<KeyedListItem<Key, V>>,
    n: int,
)
    requires
        s.len() == t.len(),
        0 <= n <= s.len(),
        forall|k: int| 0 <= k < n ==> V::span(&#[trigger] s[k].state->0) == V::span(&t[k].state->0),
    ensures
        slots_span(s, n) == slots_span(t, n),
    decreases n,
{
    if n > 0 {
        lemma_span_same(s, t, n - 1);
        assert(V::span(&s[n - 1].state->0) == V::span(&t[n - 1].state->0));
    }
}

impl<Key, V: NodeView> KeyedListItem<Key, V> {
    /// The slot holds a well-formed view and a built state.
    pub open spec fn is_built(self) -> bool {
        &&& self.view is Some
        &&& self.view->0.wf()
        &&& self.state is Some
        &&& V::built(&self.state->0)
    }

    /// The placed nodes that the slot's state owns.
    pub open spec fn owned(self) -> Set<NodeId> {
        if self.state is Some {
            V::owned(&self.state->0)
        } else {
            Set::empty()
        }
    }

    /// The key of the slot.
    pub fn key(&self) -> (r: &Key)
        ensures
            *r == self.key,
    {
        &self.key
    }

    /// The child's state, if the slot has been built.
    pub fn state(&self) -> (r: Option<&V::State>)
        ensures
            r == (match self.state {
                Some(s) => Some(&s),
                None => None,
            }),
    {
        match &self.state {
            Some(s) => Some(s),
            None => None,
        }
    }

    /// Reports the child's current output nodes.
    pub fn nodes(&self, ecx: &ElementContext) -> (r: NodeSpan)
        requires
            self.is_built(),
        ensures
            r.flat() == V::span(&self.state->0),
            V::shown_span(&self.state->0, r),
    {
        match (&self.view, &self.state) {
            (Some(view), Some(state)) => view.nodes(ecx, state),
            _ => NodeSpan::Empty,
        }
    }

    /// Recomputes the child's output nodes.
    pub fn collect(&mut self, ecx: &mut ElementContext) -> (r: NodeSpan)
        requires
            old(self).is_built(),
        ensures
            final(self).is_built(),
            final(self).view == old(self).view,
            final(self).key == old(self).key,
            final(self).owned() == old(self).owned(),
            V::span(&final(self).state->0) == V::span(&old(self).state->0),
            *final(ecx) == *old(ecx),
            r.flat() == V::span(&final(self).state->0),
            V::shown_span(&final(self).state->0, r),
    {
        match (&self.view, &mut self.state) {
            (Some(view), Some(state)) => view.collect(ecx, state),
            _ => NodeSpan::Empty,
        }
    }
}

/// A view that shows one child view per item of `items`: `keyof` gives the
/// key of an item and `each` its child view. Across update cycles, slots are
/// matched by key (see `build_recursive`), so that an item whose key
/// persists keeps its state. Keys are expected to be distinct within one
/// list; with duplicates the matching stays deterministic (it follows the
/// earliest longest run of keys), but which duplicate takes over which
/// previous slot follows from that rule alone.
#[verifier::reject_recursive_types(Item)]
#[verifier::reject_recursive_types(Key)]
#[verifier::reject_recursive_types(V)]
pub struct ForKeyed<Item, Key, V: NodeView, K: Fn(&Item) -> Key, F: Fn(&Item) -> V> {
    pub items: Vec<Item>,
    pub keyof: K,
    pub each: F,
    pub key: PhantomData<Key>,
}

/// Where `eq` compares slots by key and has answered about every pair, its
/// best run is the best run of the keys.
proof fn lemma_best_run_of_keys<Key, V: NodeView, E: Fn(&KeyedListItem<Key, V>, &KeyedListItem<Key, V>) -> bool>(
    eq: E,
    a: Seq<KeyedListItem<Key, V>>,
    b: Seq<KeyedListItem<Key, V>>,
    r: (int, int, int),
)
    requires
        forall|x: KeyedListItem<Key, V>, y: KeyedListItem<Key, V>, res: bool|
            #[trigger] eq.ensures((&x, &y), res) ==> res == (x.key == y.key),
        forall|x: int, y: int|
            0 <= x < a.len() && 0 <= y < b.len() ==> #[trigger] decided(eq, a[x], b[y]),
        is_best_run(eq, a, b, r.0, r.1, r.2),
    ensures
        best_key_run(keys_of(a), keys_of(b), r.0, r.1, r.2),
{
    let ka = keys_of(a);
    let kb = keys_of(b);
    assert forall|x: int, y: int| 0 <= x < a.len() && 0 <= y < b.len() implies #[trigger] agrees(
        eq,
        a[x],
        b[y],
    ) == (ka[x] == kb[y]) by {
        assert(decided(eq, a[x], b[y]));
    }
    assert forall|sa: int, sb: int, len: int| #[trigger]
        key_run(ka, kb, sa, sb, len) == is_run(eq, a, b, sa, sb, len) by {
        if key_run(ka, kb, sa, sb, len) {
            assert forall|k: int| 0 <= k < len implies #[trigger] agrees(
                eq,
                a[sa + k],
                b[sb + k],
            ) by {
                assert(ka[sa + k] == kb[sb + k]);
            }
        }
        if is_run(eq, a, b, sa, sb, len) {
            assert forall|k: int| 0 <= k < len implies #[trigger] ka[sa + k] == kb[sb + k] by {
                assert(agrees(eq, a[sa + k], b[sb + k]));
            }
        }
    }
}

impl<Item, Key: PartialEq, V: NodeView, K: Fn(&Item) -> Key, F: Fn(&Item) -> V> ForKeyed<
    Item,
    Key,
    V,
    K,
    F,
> {
    /// A keyed list over a copy of `items`.
    pub fn new(items: &[Item], keyof: K, each: F) -> (r: Self)
        where Item: Clone,
        ensures
            r.items@.len() == items@.len(),
            forall|i: int| 0 <= i < items@.len() ==> cloned(items@[i], #[trigger] r.items@[i]),
            r.keyof == keyof,
            r.each == each,
    {
        let mut copy: Vec<Item> = Vec::new();
        let mut i: usize = 0;
        while i < items.len()
            invariant
                i <= items@.len(),
                copy@.len() == i,
                forall|k: int| 0 <= k < i ==> cloned(items@[k], #[trigger] copy@[k]),
            decreases items@.len() - i,
        {
            copy.push(items[i].clone());
            i = i + 1;
        }
        ForKeyed { items: copy, keyof, each, key: PhantomData }
    }

    /// Matches the previous slots in `prev_range` with the next slots in
    /// `next_range` by key: records in `sources[j]` the previous position
    /// whose state next position `j` takes over, and leaves the other
    /// entries as they were. Positions left unmatched are razed (previous)
    /// or built fresh (next) by the caller.
    pub fn build_recursive(
        &self,
        prev_state: &[KeyedListItem<Key, V>],
        prev_range: Range<usize>,
        next_state: &[KeyedListItem<Key, V>],
        next_range: Range<usize>,
        sources: &mut Vec<Option<usize>>,
    )
        requires
            vstd::laws_eq::obeys_concrete_eq::<Key>(),
            prev_range.start <= prev_range.end <= prev_state@.len(),
            next_range.start <= next_range.end <= next_state@.len(),
            old(sources)@.len() == next_state@.len(),
        ensures
            final(sources)@.len() == old(sources)@.len(),
            forall|j: int|
                0 <= j < final(sources)@.len() ==> #[trigger] final(sources)@[j] == if align(
                    keys_of(prev_state@),
                    prev_range.start as int,
                    prev_range.end as int,
                    keys_of(next_state@),
                    next_range.start as int,
                    next_range.end as int,
                ).contains_key(j) {
                    Some(
                        align(
                            keys_of(prev_state@),
                            prev_range.start as int,
                            prev_range.end as int,
                            keys_of(next_state@),
                            next_range.start as int,
                            next_range.end as int,
                        )[j] as usize,
                    )
                } else {
                    old(sources)@[j]
                },
        decreases (prev_range.end - prev_range.start) + (next_range.end - next_range.start),
    {
        let ghost kp = keys_of(prev_state@);
        let ghost kn = keys_of(next_state@);
        let ghost plo = prev_range.start as int;
        let ghost phi = prev_range.end as int;
        let ghost nlo = next_range.start as int;
        let ghost nhi = next_range.end as int;
        if prev_range.start >= prev_range.end || next_range.start >= next_range.end {
            return ;
        }
        let prev_slice = &prev_state[prev_range.start..prev_range.end];
        let next_slice = &next_state[next_range.start..next_range.end];
        let same_key = |a: &KeyedListItem<Key, V>, b: &KeyedListItem<Key, V>| -> (r: bool)
            requires
                vstd::laws_eq::obeys_concrete_eq::<Key>(),
            ensures
                r == (a.key == b.key),
            {
                proof {
                    reveal(vstd::laws_eq::obeys_concrete_eq);
                }
                a.key == b.key
            };
        let (pa_off, nb_off, len) = lcs(prev_slice, next_slice, same_key);
        proof {
            lemma_best_run_of_keys(same_key, prev_slice@, next_slice@, (pa_off as int, nb_off as int, len as int));
            assert(keys_of(prev_slice@) =~= kp.subrange(plo, phi));
            assert(keys_of(next_slice@) =~= kn.subrange(nlo, nhi));
            crate::align::lemma_split(kp.subrange(plo, phi), kn.subrange(nlo, nhi));
            crate::align::lemma_best_key_run_unique(
                kp.subrange(plo, phi),
                kn.subrange(nlo, nhi),
                crate::align::split(kp.subrange(plo, phi), kn.subrange(nlo, nhi)),
                (pa_off as int, nb_off as int, len as int),
            );
        }
        if len == 0 {
            return ;
        }
        let prev_start = prev_range.start + pa_off;
        let next_start = next_range.start + nb_off;
        let prev_end = prev_start + len;
        let next_end = next_start + len;
        let ghost before = sources@;
        // What precedes the run, on both sides.
        self.build_recursive(
            prev_state,
            prev_range.start..prev_start,
            next_state,
            next_range.start..next_start,
            sources,
        );
        let ghost after_pre = sources@;
        // The run itself: each next slot takes over the previous slot facing it.
        let mut k: usize = 0;
        while k < len
            invariant
                k <= len,
                next_end <= next_state@.len(),
                prev_end <= prev_state@.len(),
                next_end == next_start + len,
                prev_end == prev_start + len,
                sources@.len() == after_pre.len(),
                sources@.len() == next_state@.len(),
                forall|j: int|
                    0 <= j < sources@.len() ==> #[trigger] sources@[j] == if next_start <= j
                        < next_start + k {
                        Some((j - next_start + prev_start) as usize)
                    } else {
                        after_pre[j]
                    },
            decreases len - k,
        {
            sources.set(next_start + k, Some(prev_start + k));
            k = k + 1;
        }
        let ghost after_mid = sources@;
        // What follows the run, on both sides.
        self.build_recursive(prev_state, prev_end..prev_range.end, next_state, next_end..next_range.end, sources);
        proof {
            crate::align::lemma_align_shape(kp, plo, prev_start as int, kn, nlo, next_start as int);
            crate::align::lemma_align_shape(kp, prev_end as int, phi, kn, next_end as int, nhi);
            let pre = align(kp, plo, prev_start as int, kn, nlo, next_start as int);
            let mid = Map::new(
                |j: int| next_start <= j < next_start + len,
                |j: int| j - next_start + prev_start,
            );
            let post = align(kp, prev_end as int, phi, kn, next_end as int, nhi);
            let m = align(kp, plo, phi, kn, nlo, nhi);
            assert(m == pre.union_prefer_right(mid).union_prefer_right(post));
            assert forall|j: int| 0 <= j < sources@.len() implies #[trigger] sources@[j] == if m.contains_key(j) {
                Some(m[j] as usize)
            } else {
                before[j]
            } by {
                if post.contains_key(j) {
                } else if mid.contains_key(j) {
                } else {
                }
            }
        }
    }

    /// Slot `j` of `s` holds the key and the child view that `keyof` and
    /// `each` give for item `j`, and a state whose nodes in `ecx` show that
    /// view.
    pub open spec fn slot_shows(&self, s: Seq<KeyedListItem<Key, V>>, j: int, ecx: ElementContext) -> bool {
        &&& s[j].state is Some
        &&& self.keyof.ensures((&self.items@[j],), s[j].key)
        &&& self.each.ensures((&self.items@[j],), s[j].view->0)
        &&& s[j].view->0.shows(&s[j].state->0, ecx)
    }

    /// One slot per item, in order, each showing its item.
    pub open spec fn shows_items(&self, s: Seq<KeyedListItem<Key, V>>, ecx: ElementContext) -> bool {
        &&& s.len() == self.items@.len()
        &&& forall|j: int| 0 <= j < s.len() ==> #[trigger] self.slot_shows(s, j, ecx)
    }

    /// A slot keeps showing its item while the nodes it owns keep their
    /// values.
    pub proof fn lemma_slots_frame(&self, s: Seq<KeyedListItem<Key, V>>, n: int, e1: ElementContext, e2: ElementContext)
        requires
            0 <= n <= s.len(),
            forall|j: int| 0 <= j < n ==> #[trigger] self.slot_shows(s, j, e1),
            forall|j: int, h: NodeId|
                0 <= j < n && #[trigger] s[j].owned().contains(h) ==> e2.slot(h) == e1.slot(h),
        ensures
            forall|j: int| 0 <= j < n ==> #[trigger] self.slot_shows(s, j, e2),
    {
        assert forall|j: int| 0 <= j < n implies #[trigger] self.slot_shows(s, j, e2) by {
            assert(self.slot_shows(s, j, e1));
            assert forall|h: NodeId| #[trigger] V::owned(&s[j].state->0).contains(h) implies e2.slot(h) == e1.slot(h) by {
                assert(s[j].owned().contains(h));
            }
            s[j].view->0.lemma_shows_frame(&s[j].state->0, e1, e2);
        }
    }

    /// Reconciling the same items twice in a row patches every slot on the
    /// second pass: where `keyof` gives one key for one item, the slots left
    /// by the first pass carry the keys that the second pass computes, so
    /// every slot is matched to itself and keeps its state, and none is
    /// razed or built. `mid` is the state after the first pass, `next` after
    /// the second, both over this list's items.
    pub proof fn lemma_second_pass_unchanged(
        &self,
        mid: Seq<KeyedListItem<Key, V>>,
        next: Seq<KeyedListItem<Key, V>>,
        e1: ElementContext,
        e2: ElementContext,
    )
        requires
            forall|x: Item, k1: Key, k2: Key|
                #[trigger] self.keyof.ensures((&x,), k1) && #[trigger] self.keyof.ensures((&x,), k2) ==> k1 == k2,
            self.shows_items(mid, e1),
            self.shows_items(next, e2),
            slots_retained(mid, next),
        ensures
            keys_of(mid) == keys_of(next),
            forall|j: int| #[trigger] align_all(keys_of(mid), keys_of(next)).contains_key(j) <==> 0 <= j < next.len(),
            forall|j: int| 0 <= j < next.len() ==> V::retains(&mid[j].state->0, &(#[trigger] next[j]).state->0),
    {
        assert forall|j: int| 0 <= j < next.len() implies #[trigger] keys_of(mid)[j] == keys_of(next)[j] by {
            assert(self.slot_shows(mid, j, e1));
            assert(self.slot_shows(next, j, e2));
        }
        assert(keys_of(mid) =~= keys_of(next));
        lemma_rebuild_unchanged_keys(mid, next);
    }

    /// The closures may be called on any item, each child view they produce
    /// is well formed, and `==` on keys is equality.
    pub open spec fn well_formed(&self) -> bool {
        &&& vstd::laws_eq::obeys_concrete_eq::<Key>()
        &&& forall|x: Item| #[trigger] self.keyof.requires((&x,))
        &&& forall|x: Item| #[trigger] self.each.requires((&x,))
        &&& forall|x: Item, v: V| #[trigger] self.each.ensures((&x,), v) ==> v.wf()
    }

    /// A fragment of the slots' spans in order; `Empty` for an empty list.
    pub fn nodes(&self, ecx: &ElementContext, state: &Vec<KeyedListItem<Key, V>>) -> (r: NodeSpan)
        requires
            slots_built(state@),
        ensures
            r.flat() == slots_span(state@, state@.len() as int),
            slots_shown(state@, r),
            state@.len() == 0 <==> r is Empty,
            state@.len() > 0 ==> r is Fragment && r->Fragment_0@.len() == state@.len() && forall|k: int|
                0 <= k < state@.len() ==> (#[trigger] r->Fragment_0@[k]).flat() == V::span(
                    &state@[k].state->0,
                ),
    {
        if state.len() == 0 {
            return NodeSpan::Empty;
        }
        let mut spans: Vec<NodeSpan> = Vec::new();
        let mut i: usize = 0;
        while i < state.len()
            invariant
                i <= state@.len(),
                spans@.len() == i,
                slots_built(state@),
                flat_prefix(spans@, i as int) == slots_span(state@, i as int),
                forall|k: int| 0 <= k < i ==> (#[trigger] spans@[k]).flat() == V::span(&state@[k].state->0),
                forall|k: int| 0 <= k < i ==> V::shown_span(&state@[k].state->0, #[trigger] spans@[k]),
            decreases state@.len() - i,
        {
            let span = state[i].nodes(ecx);
            proof {
                lemma_flat_prefix_push(spans@, span, i as int);
            }
            spans.push(span);
            i = i + 1;
        }
        NodeSpan::Fragment(spans)
    }

    /// Recollects each slot's output nodes into a fragment; the store is left
    /// as it is and each slot keeps what it owns and shows.
    pub fn collect(&self, ecx: &mut ElementContext, state: &mut Vec<KeyedListItem<Key, V>>) -> (r: NodeSpan)
        requires
            slots_built(old(state)@),
            slots_disjoint(old(state)@),
        ensures
            final(state)@.len() == old(state)@.len(),
            slots_built(final(state)@),
            slots_disjoint(final(state)@),
            keys_of(final(state)@) == keys_of(old(state)@),
            forall|k: int| 0 <= k < final(state)@.len() ==> #[trigger] final(state)@[k].view == old(state)@[k].view,
            slots_owned(final(state)@) == slots_owned(old(state)@),
            slots_span(final(state)@, final(state)@.len() as int) == slots_span(
                old(state)@,
                old(state)@.len() as int,
            ),
            *final(ecx) == *old(ecx),
            r.flat() == slots_span(final(state)@, final(state)@.len() as int),
            slots_shown(final(state)@, r),
            final(state)@.len() == 0 <==> r is Empty,
            final(state)@.len() > 0 ==> r is Fragment && r->Fragment_0@.len() == final(state)@.len()
                && forall|k: int|
                0 <= k < final(state)@.len() ==> (#[trigger] r->Fragment_0@[k]).flat() == V::span(
                    &final(state)@[k].state->0,
                ),
    {
        let ghost s0 = old(state)@;
        if state.len() == 0 {
            return NodeSpan::Empty;
        }
        let mut spans: Vec<NodeSpan> = Vec::new();
        let mut i: usize = 0;
        while i < state.len()
            invariant
                i <= state@.len(),
                state@.len() == s0.len(),
                spans@.len() == i,
                *ecx == *old(ecx),
                forall|k: int|
                    0 <= k < i ==> {
                        &&& (#[trigger] state@[k]).is_built()
                        &&& state@[k].view == s0[k].view
                        &&& state@[k].key == s0[k].key
                        &&& state@[k].owned() == s0[k].owned()
                        &&& V::span(&state@[k].state->0) == V::span(&s0[k].state->0)
                    },
                forall|k: int| i <= k < s0.len() ==> #[trigger] state@[k] == s0[k],
                slots_built(s0),
                flat_prefix(spans@, i as int) == slots_span(state@, i as int),
                forall|k: int| 0 <= k < i ==> (#[trigger] spans@[k]).flat() == V::span(&state@[k].state->0),
                forall|k: int| 0 <= k < i ==> V::shown_span(&state@[k].state->0, #[trigger] spans@[k]),
            decreases s0.len() - i,
        {
            let ghost before = state@;
            let item = &mut state[i];
            let span = item.collect(ecx);
            proof {
                lemma_span_same(before, state@, i as int);
                lemma_flat_prefix_push(spans@, span, i as int);
            }
            spans.push(span);
            i = i + 1;
        }
        proof {
            assert forall|k: int| 0 <= k < s0.len() implies V::span(&#[trigger] s0[k].state->0) == V::span(
                &state@[k].state->0,
            ) by {
                assert(state@[k].is_built());
            }
            lemma_span_same(s0, state@, s0.len() as int);
            assert(slots_owned(state@) =~= slots_owned(s0)) by {
                assert forall|h: NodeId| slots_owned(state@).contains(h) implies slots_owned(s0).contains(h) by {
                    let k = choose|k: int| 0 <= k < state@.len() && #[trigger] state@[k].owned().contains(h);
                    assert(state@[k].is_built());
                    assert(s0[k].owned().contains(h));
                }
                assert forall|h: NodeId| slots_owned(s0).contains(h) implies slots_owned(state@).contains(h) by {
                    let k = choose|k: int| 0 <= k < s0.len() && #[trigger] s0[k].owned().contains(h);
                    assert(state@[k].is_built());
                    assert(state@[k].owned().contains(h));
                }
            }
            assert forall|a: int, b: int, h: NodeId|
                0 <= a < state@.len() && 0 <= b < state@.len() && a != b && #[trigger] state@[a].owned().contains(h)
                implies !#[trigger] state@[b].owned().contains(h) by {
                assert(state@[a].is_built());
                assert(state@[b].is_built());
                assert(s0[a].owned().contains(h));
            }
        }
        NodeSpan::Fragment(spans)
    }

    /// Builds one slot per item, in order.
    pub fn build(&self, ecx: &mut ElementContext) -> (state: Vec<KeyedListItem<Key, V>>)
        requires
            self.well_formed(),
        ensures
            state@.len() == self.items@.len(),
            forall|j: int|
                0 <= j < self.items@.len() ==> self.keyof.ensures(
                    (&self.items@[j],),
                    #[trigger] state@[j].key,
                ),
            forall|j: int|
                0 <= j < self.items@.len() ==> self.each.ensures(
                    (&self.items@[j],),
                    #[trigger] state@[j].view->0,
                ),
            self.shows_items(state@, *final(ecx)),
            slots_built(state@),
            slots_disjoint(state@),
            final(ecx).live() == old(ecx).live().union(slots_owned(state@)),
            fresh(slots_owned(state@), *old(ecx), *final(ecx)),
            placed_within(*old(ecx), *final(ecx), slots_owned(state@)),
            unchanged_except(*old(ecx), *final(ecx), Set::empty()),
            old(ecx).watermark() <= final(ecx).watermark(),
    {
        let ghost e0 = *old(ecx);
        let ghost live0 = old(ecx).live();
        let ghost w0 = old(ecx).watermark();
        let mut next_state: Vec<KeyedListItem<Key, V>> = Vec::new();
        let mut j: usize = 0;
        while j < self.items.len()
            invariant
                self.well_formed(),
                j <= self.items@.len(),
                next_state@.len() == j,
                slots_built(next_state@),
                slots_disjoint(next_state@),
                ecx.live() == live0.union(slots_owned(next_state@)),
                w0 <= ecx.watermark(),
                forall|h: NodeId| #[trigger] slots_owned(next_state@).contains(h) ==> w0 <= h < ecx.watermark(),
                forall|k: int| 0 <= k < j ==> self.keyof.ensures((&self.items@[k],), #[trigger] next_state@[k].key),
                forall|k: int| 0 <= k < j ==> #[trigger] self.slot_shows(next_state@, k, *ecx),
                unchanged_except(e0, *ecx, Set::empty()),
                e0.watermark() == w0,
                placed_within(e0, *ecx, slots_owned(next_state@)),
            decreases self.items@.len() - j,
        {
            let view = (self.each)(&self.items[j]);
            let ghost e1 = *ecx;
            let state = view.build(ecx);
            let ghost e2 = *ecx;
            assert(forall|h: NodeId| h < e1.watermark() ==> #[trigger] e2.slot(h) == e1.slot(h));
            let key = (self.keyof)(&self.items[j]);
            let item = KeyedListItem { view: Some(view), state: Some(state), key };
            proof {
                assert forall|k: int, h: NodeId|
                    0 <= k < j && #[trigger] next_state@[k].owned().contains(h) implies ecx.slot(h) == e1.slot(h) by {
                    assert(slots_owned(next_state@).contains(h));
                    assert(e1.live().contains(h));
                }
                self.lemma_slots_frame(next_state@, j as int, e1, *ecx);
                assert forall|h: NodeId| h < e0.watermark() && !Set::<NodeId>::empty().contains(h) implies #[trigger] ecx.slot(h) == e0.slot(h) by {
                    assert(h < e1.watermark());
                    assert(e2.slot(h) == e1.slot(h));
                    assert(e1.slot(h) == e0.slot(h));
                }
                lemma_owned_push(next_state@, item);
                assert forall|h: NodeId| e0.watermark() <= h < ecx.watermark() implies #[trigger] slots_owned(
                    next_state@.push(item),
                ).contains(h) by {
                    if h < e1.watermark() {
                        assert(slots_owned(next_state@).contains(h));
                    } else {
                        assert(V::owned(&item.state->0).contains(h));
                    }
                }
                assert forall|k: int| 0 <= k < j + 1 implies #[trigger] self.slot_shows(next_state@.push(item), k, *ecx) by {
                    if k < j {
                        assert(self.slot_shows(next_state@, k, *ecx));
                    }
                }
                assert forall|a: int, b: int, h: NodeId|
                    0 <= a < j + 1 && 0 <= b < j + 1 && a != b && #[trigger] next_state@.push(item)[a].owned().contains(h)
                    implies !#[trigger] next_state@.push(item)[b].owned().contains(h) by {
                    if a == j {
                        if next_state@[b].owned().contains(h) {
                            assert(slots_owned(next_state@).contains(h));
                        }
                    } else if b == j {
                        assert(slots_owned(next_state@).contains(h));
                    }
                }
            }
            next_state.push(item);
            j = j + 1;
        }
        proof {
            assert forall|k: int| 0 <= k < self.items@.len() implies self.each.ensures(
                (&self.items@[k],),
                #[trigger] next_state@[k].view->0,
            ) by {
                assert(self.slot_shows(next_state@, k, *ecx));
            }
        }
        next_state
    }

    /// Aligns the previous slots with the items' keys: previous slots that
    /// no next slot takes over are razed, matched slots are rebuilt in place
    /// from the new child view, and the remaining next slots are built fresh.
    pub fn rebuild(&self, ecx: &mut ElementContext, state: &mut Vec<KeyedListItem<Key, V>>)
        requires
            self.well_formed(),
            slots_built(old(state)@),
            slots_disjoint(old(state)@),
            slots_owned(old(state)@).subset_of(old(ecx).live()),
        ensures
            slots_built(final(state)@),
            slots_disjoint(final(state)@),
            slots_retained(old(state)@, final(state)@),
            final(ecx).live() == old(ecx).live().difference(slots_owned(old(state)@)).union(
                slots_owned(final(state)@),
            ),
            fresh(
                slots_owned(final(state)@).difference(slots_owned(old(state)@)),
                *old(ecx),
                *final(ecx),
            ),
            old(ecx).watermark() <= final(ecx).watermark(),
            final(state)@.len() == self.items@.len(),
            forall|j: int|
                0 <= j < self.items@.len() ==> self.keyof.ensures(
                    (&self.items@[j],),
                    #[trigger] final(state)@[j].key,
                ),
            forall|j: int|
                0 <= j < self.items@.len() ==> self.each.ensures(
                    (&self.items@[j],),
                    #[trigger] final(state)@[j].view->0,
                ),
            self.shows_items(final(state)@, *final(ecx)),
            placed_within(*old(ecx), *final(ecx), slots_owned(final(state)@)),
            unchanged_except(*old(ecx), *final(ecx), slots_owned(old(state)@)),
            forall|j: int, h: NodeId|
                0 <= j < final(state)@.len() && #[trigger] final(state)@[j].owned().contains(h)
                    ==> old(ecx).watermark() <= h || (align_all(
                    keys_of(old(state)@),
                    keys_of(final(state)@),
                ).contains_key(j) && old(state)@[align_all(
                    keys_of(old(state)@),
                    keys_of(final(state)@),
                )[j]].owned().contains(h)),
    {
        let ghost p0 = old(state)@;
        let ghost e0 = *old(ecx);
        let ghost live0 = old(ecx).live();
        let ghost w0 = old(ecx).watermark();
        let ghost base = live0.difference(slots_owned(p0));
        let next_len = self.items.len();
        let prev_len = state.len();

        // Next slots with their keys, not built yet.
        let mut next_state: Vec<KeyedListItem<Key, V>> = Vec::new();
        let mut j: usize = 0;
        while j < next_len
            invariant
                self.well_formed(),
                next_len == self.items@.len(),
                j <= next_len,
                next_state@.len() == j,
                forall|k: int|
                    0 <= k < j ==> {
                        &&& (#[trigger] next_state@[k]).view is None
                        &&& next_state@[k].state is None
                        &&& self.keyof.ensures((&self.items@[k],), next_state@[k].key)
                    },
            decreases next_len - j,
        {
            let key = (self.keyof)(&self.items[j]);
            next_state.push(KeyedListItem { view: None, state: None, key });
            j = j + 1;
        }
        let ghost keys = keys_of(next_state@);
        let ghost m = align_all(keys_of(p0), keys);

        let mut sources: Vec<Option<usize>> = Vec::new();
        j = 0;
        while j < next_len
            invariant
                j <= next_len,
                sources@.len() == j,
                forall|k: int| 0 <= k < j ==> #[trigger] sources@[k] is None,
            decreases next_len - j,
        {
            sources.push(None);
            j = j + 1;
        }
        self.build_recursive(state.as_slice(), 0..prev_len, next_state.as_slice(), 0..next_len, &mut sources);
        proof {
            crate::align::lemma_align_shape(keys_of(p0), 0, prev_len as int, keys, 0, next_len as int);
        }

        // For each previous slot, the next slot that takes it over.
        let mut kept: Vec<Option<usize>> = Vec::new();
        let mut i: usize = 0;
        while i < prev_len
            invariant
                i <= prev_len,
                kept@.len() == i,
                forall|k: int| 0 <= k < i ==> #[trigger] kept@[k] is None,
            decreases prev_len - i,
        {
            kept.push(None);
            i = i + 1;
        }
        j = 0;
        while j < next_len
            invariant
                j <= next_len,
                prev_len == p0.len(),
                next_len == keys.len(),
                kept@.len() == prev_len,
                sources@.len() == next_len,
                m == align_all(keys_of(p0), keys),
                forall|k: int|
                    0 <= k < next_len ==> #[trigger] sources@[k] == if m.contains_key(k) {
                        Some(m[k] as usize)
                    } else {
                        None
                    },
                forall|i2: int|
                    0 <= i2 < prev_len && (#[trigger] kept@[i2]) is Some ==> {
                        &&& kept@[i2]->0 < j
                        &&& m.contains_key(kept@[i2]->0 as int)
                        &&& m[kept@[i2]->0 as int] == i2
                    },
                forall|j2: int| 0 <= j2 < j && #[trigger] m.contains_key(j2) ==> kept@[m[j2]] == Some(j2 as usize),
            decreases next_len - j,
        {
            proof {
                crate::align::lemma_align_shape(keys_of(p0), 0, prev_len as int, keys, 0, next_len as int);
            }
            match sources[j] {
                Some(i2) => {
                    kept.set(i2, Some(j));
                },
                None => {},
            }
            j = j + 1;
        }

        // Raze the previous slots that no next slot takes over.
        i = 0;
        while i < prev_len
            invariant
                self.well_formed(),
                i <= prev_len,
                prev_len == p0.len(),
                state@.len() == prev_len,
                kept@.len() == prev_len,
                slots_built(p0),
                slots_disjoint(p0),
                slots_owned(p0).subset_of(live0),
                base == live0.difference(slots_owned(p0)),
                forall|k: int|
                    0 <= k < prev_len ==> if (#[trigger] kept@[k]) is Some || k >= i {
                        state@[k] == p0[k]
                    } else {
                        state@[k].state is None
                    },
                slots_disjoint(state@),
                ecx.live() == base.union(slots_owned(state@)),
                w0 == ecx.watermark(),
                e0.watermark() == w0,
                unchanged_except(e0, *ecx, slots_owned(p0)),
            decreases prev_len - i,
        {
            if kept[i].is_none() {
                let ghost before = state@;
                let ghost e1 = *ecx;
                proof {
                    assert(p0[i as int].is_built());
                    assert forall|h: NodeId| p0[i as int].owned().contains(h) implies ecx.live().contains(h) by {
                        assert(before[i as int].owned().contains(h));
                    }
                }
                let item = &mut state[i];
                match (&item.view, &mut item.state) {
                    (Some(view), Some(child)) => view.raze(ecx, child),
                    _ => {},
                }
                item.state = None;
                proof {
                    lemma_owned_update(before, i as int, state@[i as int]);
                    assert(ecx.live() =~= base.union(slots_owned(state@))) by {
                        assert forall|h: NodeId| p0[i as int].owned().contains(h) implies !base.contains(h) by {
                            assert(p0[i as int].owned().contains(h));
                        }
                    }
                    assert forall|a: int, b: int, h: NodeId|
                        0 <= a < state@.len() && 0 <= b < state@.len() && a != b && #[trigger] state@[a].owned().contains(h)
                        implies !#[trigger] state@[b].owned().contains(h) by {
                        assert(before[a].owned().contains(h));
                    }
                    assert forall|h: NodeId|
                        h < e0.watermark() && !slots_owned(p0).contains(h) implies #[trigger] ecx.slot(h) == e0.slot(h) by {
                        if V::owned(&p0[i as int].state->0).contains(h) {
                            assert(p0[i as int].owned().contains(h));
                        }
                        assert(e1.slot(h) == e0.slot(h));
                    }
                }
            }
            i = i + 1;
        }

        // Fill the next slots: take over a matched previous state, or build.
        j = 0;
        while j < next_len
            invariant
                self.well_formed(),
                j <= next_len,
                next_len == self.items@.len(),
                next_len == keys.len(),
                next_state@.len() == next_len,
                prev_len == p0.len(),
                state@.len() == prev_len,
                kept@.len() == prev_len,
                sources@.len() == next_len,
                m == align_all(keys_of(p0), keys),
                forall|k: int|
                    0 <= k < next_len ==> #[trigger] sources@[k] == if m.contains_key(k) {
                        Some(m[k] as usize)
                    } else {
                        None
                    },
                forall|k: int| 0 <= k < next_len && #[trigger] m.contains_key(k) ==> kept@[m[k]] == Some(k as usize),
                forall|i2: int|
                    0 <= i2 < prev_len && (#[trigger] kept@[i2]) is Some ==> {
                        &&& m.contains_key(kept@[i2]->0 as int)
                        &&& m[kept@[i2]->0 as int] == i2
                    },
                slots_built(p0),
                slots_disjoint(p0),
                slots_owned(p0).subset_of(live0),
                base == live0.difference(slots_owned(p0)),
                forall|k: int|
                    0 <= k < next_len ==> {
                        &&& (#[trigger] next_state@[k]).key == keys[k]
                        &&& self.keyof.ensures((&self.items@[k],), next_state@[k].key)
                        &&& if k < j {
                            next_state@[k].is_built()
                        } else {
                            next_state@[k].state is None
                        }
                    },
                forall|k: int|
                    0 <= k < prev_len ==> if (#[trigger] kept@[k]) is Some && kept@[k]->0 >= j {
                        state@[k] == p0[k]
                    } else {
                        state@[k].state is None
                    },
                slots_disjoint(state@),
                slots_disjoint(next_state@),
                forall|a: int, b: int, h: NodeId|
                    0 <= a < prev_len && 0 <= b < next_len && #[trigger] state@[a].owned().contains(h)
                        ==> !#[trigger] next_state@[b].owned().contains(h),
                ecx.live() == base.union(slots_owned(state@)).union(slots_owned(next_state@)),
                w0 <= ecx.watermark(),
                forall|k: int, h: NodeId|
                    0 <= k < next_len && #[trigger] next_state@[k].owned().contains(h) ==> (w0 <= h
                        < ecx.watermark()) || (m.contains_key(k) && p0[m[k]].owned().contains(h)),
                forall|k: int|
                    0 <= k < j && #[trigger] m.contains_key(k) ==> V::retains(
                        &p0[m[k]].state->0,
                        &next_state@[k].state->0,
                    ),
                forall|k: int| 0 <= k < j ==> #[trigger] self.slot_shows(next_state@, k, *ecx),
                e0.watermark() == w0,
                unchanged_except(e0, *ecx, slots_owned(p0)),
                placed_within(e0, *ecx, slots_owned(next_state@)),
            decreases next_len - j,
        {
            let ghost e_b = *ecx;
            proof {
                crate::align::lemma_align_shape(keys_of(p0), 0, prev_len as int, keys, 0, next_len as int);
            }
            let ghost s_before = state@;
            let ghost n_before = next_state@;
            let ghost live_before = ecx.live();
            let ghost wb = ecx.watermark();
            let ghost changed: Set<NodeId> = if m.contains_key(j as int) {
                p0[m[j as int]].owned()
            } else {
                Set::empty()
            };
            let view = (self.each)(&self.items[j]);
            match sources[j] {
                Some(i) => {
                    proof {
                        assert(kept@[i as int] == Some(j));
                        assert(s_before[i as int] == p0[i as int]);
                        assert(p0[i as int].is_built());
                        assert forall|h: NodeId| p0[i as int].owned().contains(h) implies ecx.live().contains(h) by {
                            assert(s_before[i as int].owned().contains(h));
                        }
                    }
                    let slot = &mut state[i];
                    let taken = slot.state.take();
                    match taken {
                        Some(mut child) => {
                            view.rebuild(ecx, &mut child);
                            let slot = &mut next_state[j];
                            slot.view = Some(view);
                            slot.state = Some(child);
                        },
                        None => {},
                    }
                    proof {
                        let o = p0[i as int].owned();
                        lemma_owned_update(s_before, i as int, state@[i as int]);
                        lemma_owned_update(n_before, j as int, next_state@[j as int]);
                        assert forall|h: NodeId| o.contains(h) implies !base.contains(h) && !slots_owned(n_before).contains(h) by {
                            if slots_owned(n_before).contains(h) {
                                let b = choose|b: int| 0 <= b < n_before.len() && #[trigger] n_before[b].owned().contains(h);
                                assert(s_before[i as int].owned().contains(h));
                            }
                        }
                        assert(ecx.live() =~= base.union(slots_owned(state@)).union(slots_owned(next_state@)));
                        assert forall|a: int, b: int, h: NodeId|
                            0 <= a < state@.len() && 0 <= b < state@.len() && a != b && #[trigger] state@[a].owned().contains(h)
                            implies !#[trigger] state@[b].owned().contains(h) by {
                            assert(s_before[a].owned().contains(h));
                        }
                        assert forall|a: int, b: int, h: NodeId|
                            0 <= a < next_state@.len() && 0 <= b < next_state@.len() && a != b && #[trigger] next_state@[a].owned().contains(h)
                            implies !#[trigger] next_state@[b].owned().contains(h) by {
                            let c_new = next_state@[j as int].state->0;
                            if a == j {
                                if n_before[b].owned().contains(h) {
                                    assert(slots_owned(n_before).contains(h));
                                    assert(live_before.contains(h));
                                    if o.contains(h) {
                                        assert(s_before[i as int].owned().contains(h));
                                    } else {
                                        assert(V::owned(&c_new).difference(o).contains(h));
                                    }
                                }
                            } else if b == j {
                                assert(n_before[a].owned().contains(h));
                                assert(slots_owned(n_before).contains(h));
                                assert(live_before.contains(h));
                                if next_state@[b].owned().contains(h) {
                                    if o.contains(h) {
                                        assert(s_before[i as int].owned().contains(h));
                                    } else {
                                        assert(V::owned(&c_new).difference(o).contains(h));
                                    }
                                }
                            } else {
                                assert(n_before[a].owned().contains(h));
                                assert(!n_before[b].owned().contains(h));
                            }
                        }
                        assert forall|k: int, h: NodeId|
                            0 <= k < next_len && #[trigger] next_state@[k].owned().contains(h) implies (w0 <= h
                                < ecx.watermark()) || (m.contains_key(k) && p0[m[k]].owned().contains(h)) by {
                            if k != j {
                                assert(n_before[k] == next_state@[k]);
                                assert(n_before[k].owned().contains(h));
                            } else if !o.contains(h) {
                                assert(V::owned(&next_state@[j as int].state->0).difference(o).contains(h));
                            }
                        }
                        assert forall|a: int, b: int, h: NodeId|
                            0 <= a < prev_len && 0 <= b < next_len && #[trigger] state@[a].owned().contains(h)
                            implies !#[trigger] next_state@[b].owned().contains(h) by {
                            assert(s_before[a].owned().contains(h));
                            assert(slots_owned(s_before).contains(h));
                            assert(live_before.contains(h));
                            if b != j {
                                assert(n_before[b] == next_state@[b]);
                                assert(!n_before[b].owned().contains(h));
                            }
                            if b == j && next_state@[b].owned().contains(h) {
                                let c_new = next_state@[j as int].state->0;
                                if o.contains(h) {
                                    assert(s_before[i as int].owned().contains(h));
                                } else {
                                    assert(V::owned(&c_new).difference(o).contains(h));
                                }
                            }
                        }
                        assert forall|h: NodeId|
                            h < e_b.watermark() && !changed.contains(h) implies #[trigger] ecx.slot(h) == e_b.slot(h) by {
                            if V::owned(&p0[i as int].state->0).contains(h) {
                                assert(p0[i as int].owned().contains(h));
                            }
                        }
                        assert(self.slot_shows(next_state@, j as int, *ecx));
                    }
                },
                None => {
                    let child = view.build(ecx);
                    let slot = &mut next_state[j];
                    slot.view = Some(view);
                    slot.state = Some(child);
                    proof {
                        lemma_owned_update(n_before, j as int, next_state@[j as int]);
                        assert(ecx.live() =~= base.union(slots_owned(state@)).union(slots_owned(next_state@)));
                        assert forall|a: int, b: int, h: NodeId|
                            0 <= a < next_state@.len() && 0 <= b < next_state@.len() && a != b && #[trigger] next_state@[a].owned().contains(h)
                            implies !#[trigger] next_state@[b].owned().contains(h) by {
                            let c_new = next_state@[j as int].state->0;
                            if a == j {
                                assert(V::owned(&c_new).contains(h));
                                if n_before[b].owned().contains(h) {
                                    assert(slots_owned(n_before).contains(h));
                                    assert(live_before.contains(h));
                                }
                            } else if b == j {
                                assert(n_before[a].owned().contains(h));
                                assert(slots_owned(n_before).contains(h));
                                assert(live_before.contains(h));
                                if next_state@[b].owned().contains(h) {
                                    assert(V::owned(&c_new).contains(h));
                                }
                            } else {
                                assert(n_before[a].owned().contains(h));
                                assert(!n_before[b].owned().contains(h));
                            }
                        }
                        assert forall|k: int, h: NodeId|
                            0 <= k < next_len && #[trigger] next_state@[k].owned().contains(h) implies (w0 <= h
                                < ecx.watermark()) || (m.contains_key(k) && p0[m[k]].owned().contains(h)) by {
                            if k != j {
                                assert(n_before[k] == next_state@[k]);
                                assert(n_before[k].owned().contains(h));
                            } else {
                                assert(V::owned(&next_state@[j as int].state->0).contains(h));
                            }
                        }
                        assert forall|a: int, b: int, h: NodeId|
                            0 <= a < prev_len && 0 <= b < next_len && #[trigger] state@[a].owned().contains(h)
                            implies !#[trigger] next_state@[b].owned().contains(h) by {
                            assert(slots_owned(s_before).contains(h));
                            assert(live_before.contains(h));
                            if b != j {
                                assert(n_before[b] == next_state@[b]);
                                assert(!n_before[b].owned().contains(h));
                            }
                            if b == j && next_state@[b].owned().contains(h) {
                                assert(V::owned(&next_state@[j as int].state->0).contains(h));
                            }
                        }
                        assert(unchanged_except(e_b, *ecx, Set::empty()));
                        assert(changed =~= Set::empty());
                        assert(self.slot_shows(next_state@, j as int, *ecx));
                    }
                },
            }
            proof {
                assert(placed_within(e_b, *ecx, next_state@[j as int].owned()));
                lemma_owned_update(n_before, j as int, next_state@[j as int]);
                assert forall|h: NodeId| e0.watermark() <= h < ecx.watermark() implies #[trigger] slots_owned(
                    next_state@,
                ).contains(h) by {
                    if h < e_b.watermark() {
                        assert(slots_owned(n_before).contains(h));
                        let k = choose|k: int| 0 <= k < n_before.len() && #[trigger] n_before[k].owned().contains(h);
                        assert(next_state@[k] == n_before[k]);
                    } else {
                        assert(next_state@[j as int].owned().contains(h));
                    }
                }
                assert(unchanged_except(e_b, *ecx, changed));
                assert forall|h: NodeId|
                    h < e0.watermark() && !slots_owned(p0).contains(h) implies #[trigger] ecx.slot(h) == e0.slot(h) by {
                    if changed.contains(h) {
                        assert(p0[m[j as int]].owned().contains(h));
                    }
                    assert(ecx.slot(h) == e_b.slot(h));
                    assert(e_b.slot(h) == e0.slot(h));
                }
                assert forall|k: int, h: NodeId|
                    0 <= k < j && #[trigger] n_before[k].owned().contains(h) implies ecx.slot(h) == e_b.slot(h) by {
                    assert(slots_owned(n_before).contains(h));
                    assert(live_before.contains(h));
                    if changed.contains(h) {
                        let i2 = m[j as int];
                        assert(kept@[i2] == Some(j));
                        assert(s_before[i2] == p0[i2]);
                        assert(s_before[i2].owned().contains(h));
                    }
                }
                self.lemma_slots_frame(n_before, j as int, e_b, *ecx);
                assert forall|k: int| 0 <= k < j + 1 implies #[trigger] self.slot_shows(next_state@, k, *ecx) by {
                    if k < j {
                        assert(next_state@[k] == n_before[k]);
                        assert(self.slot_shows(n_before, k, *ecx));
                    }
                }
            }
            j = j + 1;
        }
        proof {
            assert(slots_owned(state@) =~= Set::empty()) by {
                assert forall|h: NodeId| !slots_owned(state@).contains(h) by {
                    if slots_owned(state@).contains(h) {
                        let a = choose|a: int| 0 <= a < state@.len() && #[trigger] state@[a].owned().contains(h);
                        assert(kept@[a] is None || kept@[a]->0 < next_len);
                    }
                }
            }
            assert(keys_of(next_state@) =~= keys);
            assert(ecx.live() =~= live0.difference(slots_owned(p0)).union(slots_owned(next_state@)));
            assert forall|h: NodeId| #[trigger] slots_owned(next_state@).difference(slots_owned(p0)).contains(h)
                implies w0 <= h < ecx.watermark() by {
                let k = choose|k: int| 0 <= k < next_state@.len() && #[trigger] next_state@[k].owned().contains(h);
                if m.contains_key(k) && p0[m[k]].owned().contains(h) {
                    assert(slots_owned(p0).contains(h));
                }
            }
        }
        proof {
            assert forall|k: int| 0 <= k < self.items@.len() implies self.each.ensures(
                (&self.items@[k],),
                #[trigger] next_state@[k].view->0,
            ) by {
                assert(self.slot_shows(next_state@, k, *ecx));
            }
        }
        *state = next_state;
    }

    /// Razes every slot, whatever its key.
    pub fn raze(&self, ecx: &mut ElementContext, state: &mut Vec<KeyedListItem<Key, V>>)
        requires
            slots_built(old(state)@),
            slots_disjoint(old(state)@),
            slots_owned(old(state)@).subset_of(old(ecx).live()),
        ensures
            final(ecx).live() == old(ecx).live().difference(slots_owned(old(state)@)),
            unchanged_except(*old(ecx), *final(ecx), slots_owned(old(state)@)),
            final(ecx).watermark() == old(ecx).watermark(),
    {
        let ghost s0 = old(state)@;
        let ghost e0 = *old(ecx);
        let ghost live0 = old(ecx).live();
        let mut i: usize = 0;
        while i < state.len()
            invariant
                i <= state@.len(),
                state@.len() == s0.len(),
                slots_built(s0),
                slots_disjoint(s0),
                slots_owned(s0).subset_of(live0),
                forall|k: int| i <= k < s0.len() ==> #[trigger] state@[k] == s0[k],
                ecx.live() == live0.difference(slots_owned(s0.take(i as int))),
                ecx.watermark() == e0.watermark(),
                unchanged_except(e0, *ecx, slots_owned(s0.take(i as int))),
            decreases s0.len() - i,
        {
            let ghost e1 = *ecx;
            let ghost before = state@;
            proof {
                assert(s0.take(i + 1) == s0.take(i as int).push(s0[i as int]));
                lemma_owned_push(s0.take(i as int), s0[i as int]);
                assert forall|h: NodeId| s0[i as int].owned().contains(h) implies ecx.live().contains(h) by {
                    assert(slots_owned(s0).contains(h));
                    if slots_owned(s0.take(i as int)).contains(h) {
                        let k = choose|k: int| 0 <= k < i && #[trigger] s0.take(i as int)[k].owned().contains(h);
                        assert(s0[k].owned().contains(h));
                    }
                }
            }
            proof {
                assert(s0[i as int].is_built());
            }
            let item = &mut state[i];
            match (&item.view, &mut item.state) {
                (Some(view), Some(child)) => view.raze(ecx, child),
                _ => {},
            }
            proof {
                assert(ecx.live() =~= live0.difference(slots_owned(s0.take(i + 1))));
                let o = V::owned(&s0[i as int].state->0);
                assert(s0[i as int].owned() == o);
                assert forall|h: NodeId|
                    h < e0.watermark() && !slots_owned(s0.take(i + 1)).contains(h) implies #[trigger] ecx.slot(h)
                        == e0.slot(h) by {
                    assert(!o.contains(h));
                    assert(e1.slot(h) == e0.slot(h));
                }
            }
            i = i + 1;
        }
        proof {
            assert(s0.take(s0.len() as int) == s0);
        }
    }
}

impl<Item, Key: PartialEq, V: NodeView, K: Fn(&Item) -> Key, F: Fn(&Item) -> V> NodeView for ForKeyed<
    Item,
    Key,
    V,
    K,
    F,
> {
    type State = Vec<KeyedListItem<Key, V>>;

    open spec fn wf(&self) -> bool {
        self.well_formed()
    }

    open spec fn built(state: &Vec<KeyedListItem<Key, V>>) -> bool {
        slots_built(state@) && slots_disjoint(state@)
    }

    open spec fn owned(state: &Vec<KeyedListItem<Key, V>>) -> Set<NodeId> {
        slots_owned(state@)
    }

    open spec fn retains(prev: &Vec<KeyedListItem<Key, V>>, next: &Vec<KeyedListItem<Key, V>>) -> bool {
        slots_retained(prev@, next@)
    }

    open spec fn span(state: &Vec<KeyedListItem<Key, V>>) -> Seq<NodeId> {
        slots_span(state@, state@.len() as int)
    }

    open spec fn shown_span(state: &Vec<KeyedListItem<Key, V>>, r: NodeSpan) -> bool {
        slots_shown(state@, r)
    }

    proof fn lemma_shown_span_unique(state: &Vec<KeyedListItem<Key, V>>, r1: NodeSpan, r2: NodeSpan) {
        lemma_slots_shown_unique(state@, r1, r2);
    }

    open spec fn shows(&self, state: &Vec<KeyedListItem<Key, V>>, ecx: ElementContext) -> bool {
        self.shows_items(state@, ecx)
    }

    proof fn lemma_shows_frame(&self, state: &Vec<KeyedListItem<Key, V>>, e1: ElementContext, e2: ElementContext) {
        assert forall|j: int, h: NodeId|
            0 <= j < state@.len() && #[trigger] state@[j].owned().contains(h) implies e2.slot(h) == e1.slot(h) by {
            assert(slots_owned(state@).contains(h));
            assert(<ForKeyed<Item, Key, V, K, F> as NodeView>::owned(state).contains(h));
        }
        self.lemma_slots_frame(state@, state@.len() as int, e1, e2);
        assert(self.shows_items(state@, e2));
    }

    fn nodes(&self, ecx: &ElementContext, state: &Vec<KeyedListItem<Key, V>>) -> (r: NodeSpan) {
        ForKeyed::<Item, Key, V, K, F>::nodes(self, ecx, state)
    }

    fn build(&self, ecx: &mut ElementContext) -> (state: Vec<KeyedListItem<Key, V>>) {
        ForKeyed::<Item, Key, V, K, F>::build(self, ecx)
    }

    fn rebuild(&self, ecx: &mut ElementContext, state: &mut Vec<KeyedListItem<Key, V>>) {
        ForKeyed::<Item, Key, V, K, F>::rebuild(self, ecx, state)
    }

    fn collect(&self, ecx: &mut ElementContext, state: &mut Vec<KeyedListItem<Key, V>>) -> (r: NodeSpan) {
        ForKeyed::<Item, Key, V, K, F>::collect(self, ecx, state)
    }

    fn raze(&self, ecx: &mut ElementContext, state: &mut Vec<KeyedListItem<Key, V>>) {
        ForKeyed::<Item, Key, V, K, F>::raze(self, ecx, state)
    }
}

/// Identity is kept across a rebuild for every key that both lists hold:
/// where the keys are distinct on each side and the shared keys keep their
/// relative order, the slot of a shared key holds after the rebuild the
/// state that the slot of that key held before, patched in place rather
/// than razed and built again.
pub proof fn lemma_rebuild_keeps_shared_keys<Key, V: NodeView>(
    prev: Seq<KeyedListItem<Key, V>>,
    next: Seq<KeyedListItem<Key, V>>,
)
    requires
        slots_retained(prev, next),
        distinct(keys_of(prev)),
        distinct(keys_of(next)),
        same_order(keys_of(prev), keys_of(next)),
    ensures
        forall|i: int, j: int|
            0 <= i < prev.len() && 0 <= j < next.len() && #[trigger] prev[i].key == #[trigger] next[j].key
                ==> V::retains(&prev[i].state->0, &next[j].state->0),
{
    let kp = keys_of(prev);
    let kn = keys_of(next);
    lemma_align_keeps_common(kp, kn);
    assert forall|i: int, j: int|
        0 <= i < prev.len() && 0 <= j < next.len() && #[trigger] prev[i].key == #[trigger] next[j].key
            implies V::retains(&prev[i].state->0, &next[j].state->0) by {
        assert(kp[i] == kn[j]);
        assert(align_all(kp, kn).contains_key(j));
    }
}

/// Rebuilding a list whose keys did not change patches every slot in place:
/// every slot is matched to the slot at the same position, so none is razed
/// or built, and each holds its former state.
pub proof fn lemma_rebuild_unchanged_keys<Key, V: NodeView>(
    prev: Seq<KeyedListItem<Key, V>>,
    next: Seq<KeyedListItem<Key, V>>,
)
    requires
        slots_retained(prev, next),
        keys_of(prev) == keys_of(next),
    ensures
        forall|j: int| #[trigger] align_all(keys_of(prev), keys_of(next)).contains_key(j) <==> 0 <= j < next.len(),
        forall|j: int| 0 <= j < next.len() ==> V::retains(&prev[j].state->0, &(#[trigger] next[j]).state->0),
{
    lemma_align_unchanged(keys_of(next));
    assert forall|j: int| 0 <= j < next.len() implies V::retains(
        &prev[j].state->0,
        &(#[trigger] next[j]).state->0,
    ) by {
        assert(align_all(keys_of(prev), keys_of(next)).contains_key(j));
    }
}

/// The nodes that any of the first `n + 1` states owns.
pub open spec fn owned_through<Key, V: NodeView>(states: Seq<Seq<KeyedListItem<Key, V>>>, n: int) -> Set<NodeId> {
    Set::new(|h: NodeId| exists|i: int| 0 <= i <= n && #[trigger] slots_owned(states[i]).contains(h))
}

proof fn lemma_live_after_cycles<Key, V: NodeView>(
    before: ElementContext,
    stores: Seq<ElementContext>,
    states: Seq<Seq<KeyedListItem<Key, V>>>,
    k: int,
)
    requires
        0 <= k < states.len(),
        stores.len() >= states.len(),
        stores[0].live() == before.live().union(slots_owned(states[0])),
        forall|i: int|
            1 <= i < states.len() ==> #[trigger] stores[i].live() == stores[i - 1].live().difference(
                slots_owned(states[i - 1]),
            ).union(slots_owned(states[i])),
    ensures
        stores[k].live() == before.live().difference(owned_through(states, k)).union(slots_owned(states[k])),
    decreases k,
{
    if k == 0 {
        assert(stores[0].live() =~= before.live().difference(owned_through(states, 0)).union(
            slots_owned(states[0]),
        )) by {
            assert forall|h: NodeId| owned_through(states, 0).contains(h) implies slots_owned(states[0]).contains(h) by {
                let i = choose|i: int| 0 <= i <= 0 && #[trigger] slots_owned(states[i]).contains(h);
            }
        }
    } else {
        lemma_live_after_cycles(before, stores, states, k - 1);
        assert(stores[k].live() =~= before.live().difference(owned_through(states, k)).union(
            slots_owned(states[k]),
        )) by {
            assert forall|h: NodeId| owned_through(states, k).contains(h) && !slots_owned(states[k]).contains(h)
                implies owned_through(states, k - 1).contains(h) by {
                let i = choose|i: int| 0 <= i <= k && #[trigger] slots_owned(states[i]).contains(h);
            }
            assert forall|h: NodeId| owned_through(states, k - 1).contains(h) implies owned_through(states, k).contains(h) by {
                let i = choose|i: int| 0 <= i <= k - 1 && #[trigger] slots_owned(states[i]).contains(h);
            }
            assert forall|h: NodeId| #[trigger] slots_owned(states[k - 1]).contains(h) implies owned_through(states, k - 1).contains(h) by {
                assert(slots_owned(states[k - 1]).contains(h));
            }
        }
    }
}

/// Razing is complete however many rebuilds came before, in any store: a
/// list built into `before`, rebuilt any number of times and razed, leaves
/// live exactly the nodes that were live before and that none of its states
/// ever owned; no node that the list owned at any point stays live.
/// `stores[0]` is the store after the build, `stores[i]` after the `i`-th
/// rebuild, and the last one after the raze; `states[i]` is the list's state
/// at `stores[i]`. Each step is the store effect that `build`, `rebuild` and
/// `raze` ensure.
pub proof fn lemma_raze_after_rebuilds<Key, V: NodeView>(
    before: ElementContext,
    stores: Seq<ElementContext>,
    states: Seq<Seq<KeyedListItem<Key, V>>>,
)
    requires
        states.len() >= 1,
        stores.len() == states.len() + 1,
        stores[0].live() == before.live().union(slots_owned(states[0])),
        forall|i: int|
            1 <= i < states.len() ==> #[trigger] stores[i].live() == stores[i - 1].live().difference(
                slots_owned(states[i - 1]),
            ).union(slots_owned(states[i])),
        stores[states.len() as int].live() == stores[states.len() - 1].live().difference(
            slots_owned(states[states.len() - 1]),
        ),
    ensures
        stores[states.len() as int].live() == before.live().difference(
            owned_through(states, states.len() - 1),
        ),
        forall|i: int, h: NodeId|
            0 <= i < states.len() && #[trigger] slots_owned(states[i]).contains(h) ==> !stores[states.len() as int].live().contains(h),
{
    let n = states.len() as int;
    lemma_live_after_cycles(before, stores, states, n - 1);
    assert(stores[n].live() =~= before.live().difference(owned_through(states, n - 1)));
    assert forall|i: int, h: NodeId|
        0 <= i < states.len() && #[trigger] slots_owned(states[i]).contains(h) implies !stores[n].live().contains(h) by {
        assert(owned_through(states, n - 1).contains(h));
    }
}

/// A second pass over unchanged keys, with child views that keep exactly
/// their nodes when patched (an `Element` keeps its one node), places no
/// node and removes none: no handle is handed out that was not handed out
/// before, and the live set is what it was. `mid` and `e1` are the state and the store before the pass, `next`
/// and `e2` after it; the other requirements are what `rebuild` ensures.
pub proof fn lemma_second_pass_places_nothing<Key, V: NodeView>(
    mid: Seq<KeyedListItem<Key, V>>,
    next: Seq<KeyedListItem<Key, V>>,
    e1: ElementContext,
    e2: ElementContext,
)
    requires
        forall|a: V::State, b: V::State| #[trigger] V::retains(&a, &b) ==> V::owned(&a) == V::owned(&b),
        keys_of(mid) == keys_of(next),
        slots_built(mid),
        slots_built(next),
        slots_owned(mid).subset_of(e1.live()),
        slots_retained(mid, next),
        e2.live() == e1.live().difference(slots_owned(mid)).union(slots_owned(next)),
        placed_within(e1, e2, slots_owned(next)),
        e1.watermark() <= e2.watermark(),
    ensures
        forall|h: NodeId| #[trigger] e2.slot(h) is Some || h < e2.watermark() ==> h < e1.watermark(),
        e2.live() == e1.live(),
{
    lemma_rebuild_unchanged_keys(mid, next);
    assert(mid.len() == next.len()) by {
        assert(keys_of(mid).len() == keys_of(next).len());
    }
    assert forall|j: int| 0 <= j < next.len() implies #[trigger] next[j].owned() == mid[j].owned() by {
        assert(mid[j].is_built());
        assert(next[j].is_built());
        assert(V::retains(&mid[j].state->0, &next[j].state->0));
    }
    assert(slots_owned(next) =~= slots_owned(mid)) by {
        assert forall|h: NodeId| slots_owned(next).contains(h) implies slots_owned(mid).contains(h) by {
            let k = choose|k: int| 0 <= k < next.len() && #[trigger] next[k].owned().contains(h);
            assert(mid[k].owned().contains(h));
        }
        assert forall|h: NodeId| slots_owned(mid).contains(h) implies slots_owned(next).contains(h) by {
            let k = choose|k: int| 0 <= k < mid.len() && #[trigger] mid[k].owned().contains(h);
            assert(next[k].owned().contains(h));
        }
    }
    assert forall|h: NodeId| e2.live().contains(h) <==> e1.live().contains(h) by {
        if slots_owned(mid).contains(h) {
            assert(e1.live().contains(h));
            assert(slots_owned(next).contains(h));
        }
    }
    assert(e2.live() =~= e1.live());
    assert forall|h: NodeId| #[trigger] e2.slot(h) is Some || h < e2.watermark() implies h < e1.watermark() by {
        if h >= e1.watermark() {
            assert(slots_owned(next).contains(h));
            assert(slots_owned(mid).contains(h));
            assert(e1.live().contains(h));
        }
    }
}

} // verus!
