use quill::{Element, ElementContext, NodeSpan, NodeView};

#[test]
fn spawn_and_despawn_track_live_nodes() {
    let mut ecx = ElementContext::new();
    assert_eq!(ecx.live_count(), 0);
    let a = ecx.spawn(7);
    let b = ecx.spawn(8);
    assert_eq!((a, b), (0, 1));
    assert_eq!(ecx.live_count(), 2);
    assert_eq!(ecx.value(a), Some(7));
    ecx.despawn(a);
    assert!(!ecx.is_live(a));
    assert!(ecx.is_live(b));
    assert_eq!(ecx.value(a), None);
    assert_eq!(ecx.live_count(), 1);
    assert_eq!(ecx.spawned(), 2);
    // Handles are never reused.
    let c = ecx.spawn(9);
    assert_eq!(c, 2);
}

#[test]
fn set_value_replaces_value() {
    let mut ecx = ElementContext::new();
    let a = ecx.spawn(1);
    ecx.set_value(a, 5);
    assert_eq!(ecx.value(a), Some(5));
    assert_eq!(ecx.value(42), None);
}

#[test]
fn span_flattens_in_order() {
    let span = NodeSpan::Fragment(vec![
        NodeSpan::Node(1),
        NodeSpan::Empty,
        NodeSpan::Fragment(vec![NodeSpan::Node(2), NodeSpan::Node(3)]),
        NodeSpan::Fragment(vec![]),
    ]);
    assert_eq!(span.flatten(), vec![1, 2, 3]);
    assert_eq!(NodeSpan::Empty.flatten(), Vec::<usize>::new());
}

#[test]
fn element_lifecycle() {
    let mut ecx = ElementContext::new();
    let mut state = Element::new(3).build(&mut ecx);
    let node = state.node();
    assert_eq!(ecx.value(node), Some(3));
    assert!(matches!(Element::new(3).nodes(&ecx, &state), NodeSpan::Node(n) if n == node));

    Element::new(4).rebuild(&mut ecx, &mut state);
    assert_eq!(state.node(), node);
    assert_eq!(ecx.value(node), Some(4));
    assert_eq!(ecx.spawned(), 1);

    let span = Element::new(4).collect(&mut ecx, &mut state);
    assert_eq!(span.flatten(), vec![node]);

    Element::new(4).raze(&mut ecx, &mut state);
    assert!(!ecx.is_live(node));
    assert_eq!(ecx.live_count(), 0);
}
