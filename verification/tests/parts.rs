use reconciler::{
    Builtin, Bus, Cells, CommandBuffer, Command, Compositor, ContainerID, ContextFrame,
    ContextValue, Element, Key, Mutator, Reference, Task,
};
use reconciler::Link;

type Plain = Element<u8>;

#[test]
fn a_frame_holds_one_value_per_kind() {
    let mut frame = ContextFrame::new();
    assert_eq!(frame.get(1), None);
    frame.insert(ContextValue { kind: 1, value: 10 });
    frame.insert(ContextValue { kind: 2, value: 20 });
    frame.insert(ContextValue { kind: 1, value: 11 });
    assert_eq!(frame.get(1), Some(11));
    assert_eq!(frame.get(2), Some(20));
    assert_eq!(frame.get(3), None);
    let copy = frame.duplicate();
    assert_eq!(copy.get(1), Some(11));
}

#[test]
fn entering_prefers_the_inner_binding() {
    let mut outer = ContextFrame::new();
    outer.insert(ContextValue { kind: 1, value: 10 });
    outer.insert(ContextValue { kind: 2, value: 20 });
    let mut inner = ContextFrame::new();
    inner.insert(ContextValue { kind: 2, value: 21 });
    inner.insert(ContextValue { kind: 3, value: 31 });
    let seen = outer.enter(&inner);
    assert_eq!(seen.get(1), Some(10));
    assert_eq!(seen.get(2), Some(21));
    assert_eq!(seen.get(3), Some(31));
    assert_eq!(outer.get(2), Some(20));
}

#[test]
fn a_bus_hands_tasks_out_in_order() {
    let mut bus = Bus::new();
    assert_eq!(bus.next(), None);
    let tasks = [
        Task::Update { link: Link(1), slot: 0, value: 1 },
        Task::Rerender { link: Link(2) },
        Task::Async { link: Link(3), task: 9 },
    ];
    for task in tasks {
        bus.queue_retain(task);
    }
    assert_eq!(bus.len(), 3);
    assert_eq!(bus.next(), Some(tasks[0]));
    bus.queue_retain(tasks[0]);
    assert_eq!(bus.next(), Some(tasks[1]));
    assert_eq!(bus.next(), Some(tasks[2]));
    assert_eq!(bus.next(), Some(tasks[0]));
    assert_eq!(bus.next(), None);
}

#[test]
fn cells_are_empty_until_written() {
    let mut cells = Cells::new();
    let a = cells.allocate();
    let b = cells.allocate();
    assert_eq!((a, b), (Reference(0), Reference(1)));
    assert_eq!(cells.get(a), None);
    assert_eq!(cells.replace(a, ContainerID(4)), None);
    assert_eq!(cells.replace(a, ContainerID(5)), Some(ContainerID(4)));
    assert_eq!(cells.get(a), Some(ContainerID(5)));
    assert_eq!(cells.get(b), None);
    assert_eq!(cells.replace(Reference(9), ContainerID(1)), None);
    assert_eq!(cells.get(Reference(9)), None);
}

#[test]
fn a_copy_of_the_cells_holds_what_they_held() {
    let mut cells = Cells::new();
    let a = cells.allocate();
    let b = cells.allocate();
    cells.replace(b, ContainerID(7));
    let copy = cells.duplicate();
    cells.replace(a, ContainerID(8));
    assert_eq!(copy.get(a), None);
    assert_eq!(copy.get(b), Some(ContainerID(7)));
    assert_eq!(cells.get(a), Some(ContainerID(8)));
}

#[test]
fn a_buffer_records_in_order_and_commits_as_one_batch() {
    let mut compositor = Compositor::new();
    let root = compositor.track().unwrap();
    let mut buffer: CommandBuffer = compositor.buffer();
    let a = buffer.mount(root, Builtin(1));
    buffer.mutate(&[a, root], Mutator::Platform(3));
    buffer.layout();
    buffer.unmount(a);
    assert!(!buffer.exhausted());
    let mut compositor = buffer.commit();
    assert_eq!(
        compositor.take(),
        Some(vec![
            Command::Mount(ContainerID(1), ContainerID(0), Builtin(1)),
            Command::Mutate(vec![ContainerID(1), ContainerID(0)], Mutator::Platform(3)),
            Command::Mutate(vec![], Mutator::Layout),
            Command::Unmount(ContainerID(1)),
        ])
    );
    assert_eq!(compositor.take(), None);
    // A discarded buffer leaves nothing behind but the ids it handed out.
    let mut buffer = compositor.buffer();
    assert_eq!(buffer.mount(root, Builtin(2)), ContainerID(2));
    let mut compositor = buffer.discard();
    assert_eq!(compositor.take(), None);
    assert_eq!(compositor.next_id(), ContainerID(3));
}

#[test]
fn elements_know_their_keys_and_parts() {
    let a: Plain = Element::builtin(Key::new(1), Builtin(1), Element::empty(), None);
    let b: Plain = Element::new(Key::position(1), 7u8, Element::string("text"));
    assert_eq!(a.key(), Key::Named(1));
    assert_eq!(b.key(), Key::Position(1));
    assert!(a.is_builtin() && !b.is_builtin());
    let list: Plain = Element::fragment(Key::new(9), vec![a, b]);
    assert_eq!(list.key(), Key::Named(9));
    assert_eq!(list.at(1).map(|e| e.key()), Some(Key::Position(1)));
    assert!(list.at(2).is_none());
    assert!(list.at(0).unwrap().at(0).is_none());
    assert!(list.is_renderable());
    let copy = list.duplicate();
    assert_eq!(format!("{:?}", copy), format!("{:?}", list));
    let text: Plain = Element::string("text");
    assert!(text.is_string());
    assert!(!text.is_renderable());
    let hidden: Plain = Element::context(
        Key::new(1),
        ContextValue { kind: 1, value: 1 },
        Element::fragment(Key::new(2), vec![Element::string("x")]),
    );
    assert!(!hidden.is_renderable());
}
