use quill::{Element, ElementContext, ForKeyed, KeyedListItem, NodeId, NodeSpan, NodeView};

/// Items are `(key, value)` pairs; each shows one element holding its value.
fn list(items: &[(u64, u64)]) -> ForKeyed<(u64, u64), u64, Element, impl Fn(&(u64, u64)) -> u64, impl Fn(&(u64, u64)) -> Element> {
    ForKeyed::new(items, |it: &(u64, u64)| it.0, |it: &(u64, u64)| Element::new(it.1))
}

fn keyed(keys: &[u64]) -> Vec<(u64, u64)> {
    keys.iter().map(|k| (*k, *k * 10)).collect()
}

fn node_of(slot: &KeyedListItem<u64, Element>) -> NodeId {
    slot.state().unwrap().node()
}

fn keys_of(state: &[KeyedListItem<u64, Element>]) -> Vec<u64> {
    state.iter().map(|s| *s.key()).collect()
}

#[test]
fn insert_only_cycle() {
    let mut ecx = ElementContext::new();
    let mut state = list(&[]).build(&mut ecx);
    assert_eq!(ecx.spawned(), 0);
    let next = list(&keyed(&[1, 2, 3]));
    next.rebuild(&mut ecx, &mut state);
    // three builds, no raze
    assert_eq!(ecx.spawned(), 3);
    assert_eq!(ecx.live_count(), 3);
    assert_eq!(keys_of(&state), vec![1, 2, 3]);
    match next.nodes(&ecx, &state) {
        NodeSpan::Fragment(children) => {
            assert_eq!(children.len(), 3);
            let values: Vec<Option<u64>> = children
                .iter()
                .map(|c| match c {
                    NodeSpan::Node(n) => ecx.value(*n),
                    _ => None,
                })
                .collect();
            assert_eq!(values, vec![Some(10), Some(20), Some(30)]);
        },
        _ => panic!("expected a fragment"),
    }
}

#[test]
fn delete_only_cycle() {
    let mut ecx = ElementContext::new();
    let mut state = list(&keyed(&[1, 2, 3])).build(&mut ecx);
    assert_eq!(ecx.live_count(), 3);
    let next = list(&[]);
    next.rebuild(&mut ecx, &mut state);
    // three razes, no build
    assert_eq!(ecx.spawned(), 3);
    assert_eq!(ecx.live_count(), 0);
    assert!(state.is_empty());
    assert!(matches!(next.nodes(&ecx, &state), NodeSpan::Empty));
}

#[test]
fn reorder_keeps_stable_interior() {
    let mut ecx = ElementContext::new();
    let mut state = list(&keyed(&[1, 2, 3, 4])).build(&mut ecx);
    let before: Vec<NodeId> = state.iter().map(node_of).collect();
    list(&keyed(&[4, 2, 3, 1])).rebuild(&mut ecx, &mut state);
    let after: Vec<NodeId> = state.iter().map(node_of).collect();
    assert_eq!(keys_of(&state), vec![4, 2, 3, 1]);
    // 2 and 3 are patched in place
    assert_eq!(after[1], before[1]);
    assert_eq!(after[2], before[2]);
    // 1 and 4 are razed and built again
    assert_eq!(ecx.spawned(), 6);
    assert_eq!(ecx.live_count(), 4);
    assert!(!ecx.is_live(before[0]));
    assert!(!ecx.is_live(before[3]));
    assert!(after[0] >= 4 && after[3] >= 4);
    assert_eq!(ecx.value(after[0]), Some(40));
    assert_eq!(ecx.value(after[3]), Some(10));
}

#[test]
fn unchanged_list_is_idempotent() {
    let mut ecx = ElementContext::new();
    let items = keyed(&[5, 6, 7]);
    let mut state = list(&items).build(&mut ecx);
    let before: Vec<NodeId> = state.iter().map(node_of).collect();
    list(&items).rebuild(&mut ecx, &mut state);
    list(&items).rebuild(&mut ecx, &mut state);
    let after: Vec<NodeId> = state.iter().map(node_of).collect();
    assert_eq!(before, after);
    assert_eq!(ecx.spawned(), 3);
    assert_eq!(ecx.live_count(), 3);
}

#[test]
fn shared_keys_keep_identity() {
    let mut ecx = ElementContext::new();
    let mut state = list(&keyed(&[1, 2, 3, 4, 5])).build(&mut ecx);
    let before: Vec<NodeId> = state.iter().map(node_of).collect();
    list(&keyed(&[0, 2, 6, 4, 5, 7])).rebuild(&mut ecx, &mut state);
    let after: Vec<NodeId> = state.iter().map(node_of).collect();
    assert_eq!(keys_of(&state), vec![0, 2, 6, 4, 5, 7]);
    assert_eq!(after[1], before[1]);
    assert_eq!(after[3], before[3]);
    assert_eq!(after[4], before[4]);
    assert!(!ecx.is_live(before[0]));
    assert!(!ecx.is_live(before[2]));
    assert_eq!(ecx.spawned(), 8);
    assert_eq!(ecx.live_count(), 6);
}

#[test]
fn patched_item_takes_new_value() {
    let mut ecx = ElementContext::new();
    let mut state = list(&[(1, 100), (2, 200)]).build(&mut ecx);
    let before: Vec<NodeId> = state.iter().map(node_of).collect();
    list(&[(1, 100), (2, 201)]).rebuild(&mut ecx, &mut state);
    let after: Vec<NodeId> = state.iter().map(node_of).collect();
    assert_eq!(before, after);
    assert_eq!(ecx.value(after[0]), Some(100));
    assert_eq!(ecx.value(after[1]), Some(201));
    assert_eq!(ecx.spawned(), 2);
}

#[test]
fn raze_after_many_cycles_leaves_nothing() {
    let mut ecx = ElementContext::new();
    let mut state = list(&keyed(&[1, 2, 3])).build(&mut ecx);
    list(&keyed(&[3, 1, 4])).rebuild(&mut ecx, &mut state);
    list(&keyed(&[4, 5, 6, 1])).rebuild(&mut ecx, &mut state);
    list(&keyed(&[])).rebuild(&mut ecx, &mut state);
    list(&keyed(&[9, 8])).rebuild(&mut ecx, &mut state);
    assert_eq!(ecx.live_count(), 2);
    list(&keyed(&[9, 8])).raze(&mut ecx, &mut state);
    assert_eq!(ecx.live_count(), 0);
}

#[test]
fn collect_reports_slots_in_order() {
    let mut ecx = ElementContext::new();
    let view = list(&keyed(&[1, 2]));
    let mut state = view.build(&mut ecx);
    let span = view.collect(&mut ecx, &mut state);
    let nodes: Vec<NodeId> = state.iter().map(node_of).collect();
    assert_eq!(span.flatten(), nodes);
    assert_eq!(state[0].nodes(&ecx).flatten(), vec![nodes[0]]);
    assert_eq!(state[1].collect(&mut ecx).flatten(), vec![nodes[1]]);
}

#[test]
fn new_copies_items() {
    let items = keyed(&[1, 2]);
    let view = list(&items);
    assert_eq!(view.items, items);
}

type Group = (u64, Vec<(u64, u64)>);

fn group(key: u64, members: &[u64]) -> Group {
    (key, keyed(members))
}

#[test]
fn nested_lists_reconcile_through_the_view_trait() {
    let outer = |groups: &[Group]| ForKeyed::new(groups, |g: &Group| g.0, |g: &Group| list(&g.1));
    let mut ecx = ElementContext::new();
    let first = vec![group(1, &[1, 2]), group(2, &[3])];
    let mut state = outer(&first).build(&mut ecx);
    assert_eq!(ecx.live_count(), 3);
    let kept_node = node_of(&state[0].state().unwrap()[1]);

    let second = vec![group(3, &[7]), group(1, &[2, 4])];
    outer(&second).rebuild(&mut ecx, &mut state);
    assert_eq!(keys_of_groups(&state), vec![3, 1]);
    // group 1 is patched in place, and so is its member 2
    assert_eq!(node_of(&state[1].state().unwrap()[0]), kept_node);
    assert_eq!(ecx.live_count(), 3);
    let span = outer(&second).nodes(&ecx, &state);
    assert_eq!(span.flatten().len(), 3);

    outer(&second).raze(&mut ecx, &mut state);
    assert_eq!(ecx.live_count(), 0);
}

fn keys_of_groups<V: NodeView>(state: &[KeyedListItem<u64, V>]) -> Vec<u64> {
    state.iter().map(|s| *s.key()).collect()
}

#[test]
fn duplicate_keys_follow_the_longest_run() {
    let mut ecx = ElementContext::new();
    let mut state = list(&keyed(&[1, 1, 2])).build(&mut ecx);
    let before: Vec<NodeId> = state.iter().map(node_of).collect();
    list(&keyed(&[1, 2])).rebuild(&mut ecx, &mut state);
    let after: Vec<NodeId> = state.iter().map(node_of).collect();
    // the run [1, 2] starts at the second previous slot
    assert_eq!(after, vec![before[1], before[2]]);
    assert!(!ecx.is_live(before[0]));
    assert_eq!(ecx.spawned(), 3);
}

#[test]
fn fragment_has_one_child_per_slot() {
    let mut ecx = ElementContext::new();
    let view = list(&keyed(&[4, 5, 6]));
    let state = view.build(&mut ecx);
    match view.nodes(&ecx, &state) {
        NodeSpan::Fragment(children) => {
            assert_eq!(children.len(), 3);
            for (child, slot) in children.iter().zip(state.iter()) {
                assert_eq!(child.flatten(), vec![node_of(slot)]);
            }
        },
        _ => panic!("expected a fragment"),
    }
}

#[test]
fn nodes_outside_the_list_are_left_alone() {
    let mut ecx = ElementContext::new();
    let outside = ecx.spawn(99);
    let mut state = list(&keyed(&[1, 2, 3])).build(&mut ecx);
    list(&keyed(&[3, 4])).rebuild(&mut ecx, &mut state);
    assert_eq!(ecx.value(outside), Some(99));
    list(&keyed(&[3, 4])).raze(&mut ecx, &mut state);
    assert_eq!(ecx.value(outside), Some(99));
    assert_eq!(ecx.live_count(), 1);
}
