use reconciler::{
    render, Builtin, Bus, Command, Component, Compositor, ContainerID, ContextValue, Effect,
    Element, Key, Manager, Mutator, Outcome, Render, RenderError, Renderer, State, Task,
};

#[derive(Clone, Copy, Debug, PartialEq, Eq)]
enum Widget {
    /// Renders a builtin whose descriptor is the value of its one state slot,
    /// and mutates the builtin's container with that value at the end.
    Counter,
    /// Renders a builtin whose descriptor is what it reads of context 1.
    Reader,
    /// Queues an effect that carries its name and renders the child widget
    /// of that name, or nothing for name 0.
    Named { name: u64, child: u64 },
    /// Renders what it was given as children.
    Pass,
}

impl Component for Widget {
    fn render(&self, manager: &mut Manager<Self>) -> Element<Self> {
        match *self {
            Widget::Counter => {
                let state = manager.use_state(0);
                let view = manager.use_reference();
                manager.use_effect(None, Effect::new(vec![view], Mutator::Platform(state.get())));
                Element::builtin(Key::new(1), Builtin(state.get()), Element::empty(), Some(view))
            }
            Widget::Reader => {
                let seen = manager.use_context(1).unwrap_or(0);
                Element::builtin(Key::new(1), Builtin(seen), Element::empty(), None)
            }
            Widget::Named { name, child } => {
                manager.use_effect(None, Effect::new(vec![], Mutator::Platform(name)));
                if child == 0 {
                    Element::empty()
                } else {
                    Element::new(Key::new(1), Widget::Named { name: child, child: 0 }, Element::empty())
                }
            }
            Widget::Pass => manager.children(),
        }
    }
}

fn setup() -> (Renderer, ContainerID) {
    let mut compositor = Compositor::new();
    let root = compositor.track().unwrap();
    (Renderer::new(compositor, Bus::new(), 16), root)
}

fn leaf(key: u64, descriptor: u64) -> Element<Widget> {
    Element::builtin(Key::new(key), Builtin(descriptor), Element::empty(), None)
}

fn mounts(batch: &[Command]) -> usize {
    batch.iter().filter(|c| matches!(c, Command::Mount(..))).count()
}

fn unmounts(batch: &[Command]) -> usize {
    batch.iter().filter(|c| matches!(c, Command::Unmount(..))).count()
}

#[test]
fn mount_then_unmount() {
    let (mut renderer, root) = setup();
    assert_eq!(root, ContainerID(0));
    let instance = renderer.render(leaf(7, 65), root).unwrap();
    assert_eq!(
        renderer.take(),
        Some(vec![Command::Mount(ContainerID(1), ContainerID(0), Builtin(65))])
    );
    assert_eq!(renderer.take(), None);
    assert_eq!(instance.container(), ContainerID(1));
    renderer.unmount(instance);
    assert_eq!(renderer.take(), Some(vec![Command::Unmount(ContainerID(1))]));
    assert_eq!(renderer.take(), None);
}

#[test]
fn entry_point_mounts_and_dispose_unmounts() {
    let mut compositor = Compositor::new();
    let root = compositor.track().unwrap();
    let mut tree = render(leaf(7, 65), root, compositor, Bus::new(), 16).unwrap();
    assert_eq!(
        tree.take(),
        Some(vec![Command::Mount(ContainerID(1), ContainerID(0), Builtin(65))])
    );
    let mut renderer = tree.dispose();
    assert_eq!(renderer.take(), Some(vec![Command::Unmount(ContainerID(1))]));
}

#[test]
fn keyed_reorder_keeps_identity() {
    let (mut renderer, root) = setup();
    let first = Element::fragment(Key::new(0), vec![leaf(10, 65), leaf(11, 66)]);
    let mut instance = renderer.render(first, root).unwrap();
    let batch = renderer.take().unwrap();
    assert_eq!(
        batch,
        vec![
            Command::Mount(ContainerID(1), ContainerID(0), Builtin(65)),
            Command::Mount(ContainerID(2), ContainerID(0), Builtin(66)),
        ]
    );
    let links: Vec<_> = instance.edges().iter().map(|e| (e.link(), e.container())).collect();

    let second = Element::fragment(Key::new(0), vec![leaf(11, 66), leaf(10, 65)]);
    assert_eq!(renderer.update(&mut instance, second), Ok(()));
    let batch = renderer.take().unwrap();
    assert_eq!(mounts(&batch), 0);
    assert_eq!(unmounts(&batch), 0);
    assert!(batch.is_empty());
    let after: Vec<_> = instance.edges().iter().map(|e| (e.link(), e.container())).collect();
    assert_eq!(links, after);
}

#[test]
fn keyed_removal_unmounts_the_missing_child() {
    let (mut renderer, root) = setup();
    let first = Element::fragment(Key::new(0), vec![leaf(10, 65), leaf(11, 66)]);
    let mut instance = renderer.render(first, root).unwrap();
    let batch = renderer.take().unwrap();
    assert_eq!(mounts(&batch), 2);
    let ids: Vec<_> = instance.edges().iter().map(|e| e.container()).collect();
    assert_eq!(ids, vec![ContainerID(1), ContainerID(2)]);

    let second = Element::fragment(Key::new(0), vec![leaf(10, 65)]);
    assert_eq!(renderer.update(&mut instance, second), Ok(()));
    assert_eq!(renderer.take(), Some(vec![Command::Unmount(ContainerID(2))]));
    assert_eq!(instance.edges().len(), 1);
    assert_eq!(instance.edges()[0].container(), ContainerID(1));
}

#[test]
fn state_update_rerenders_without_mounting() {
    let mut compositor = Compositor::new();
    let root = compositor.track().unwrap();
    let element = Element::new(Key::new(5), Widget::Counter, Element::empty());
    let mut tree = render(element, root, compositor, Bus::new(), 16).unwrap();
    assert_eq!(
        tree.take(),
        Some(vec![
            Command::Mount(ContainerID(1), ContainerID(0), Builtin(0)),
            Command::Mutate(vec![ContainerID(1)], Mutator::Platform(0)),
        ])
    );
    let state = State { link: tree.instance().link(), slot: 0, value: 0 };
    tree.set_state(state, 1);
    assert_eq!(tree.process(), Outcome::Rendered);
    assert_eq!(
        tree.take(),
        Some(vec![Command::Mutate(vec![ContainerID(1)], Mutator::Platform(1))])
    );
    assert_eq!(tree.process(), Outcome::Idle);
    assert_eq!(tree.take(), None);
}

fn observed(renderer: &mut Renderer) -> Vec<u64> {
    renderer
        .take()
        .unwrap()
        .iter()
        .filter_map(|c| match c {
            Command::Mount(_, _, Builtin(seen)) => Some(*seen),
            _ => None,
        })
        .collect()
}

#[test]
fn nearest_context_wins() {
    let reader = || Element::new(Key::new(3), Widget::Reader, Element::empty());
    let a = ContextValue { kind: 1, value: 65 };
    let b = ContextValue { kind: 1, value: 66 };

    let (mut renderer, root) = setup();
    renderer.render(Element::context(Key::new(1), a, reader()), root).unwrap();
    assert_eq!(observed(&mut renderer), vec![65]);

    let (mut renderer, root) = setup();
    let nested = Element::context(Key::new(1), b, Element::context(Key::new(2), a, reader()));
    renderer.render(nested, root).unwrap();
    assert_eq!(observed(&mut renderer), vec![65]);

    let (mut renderer, root) = setup();
    renderer.render(Element::context(Key::new(1), b, reader()), root).unwrap();
    assert_eq!(observed(&mut renderer), vec![66]);
}

#[test]
fn removing_the_inner_context_shows_the_outer() {
    let reader = || Element::new(Key::new(3), Widget::Reader, Element::empty());
    let a = ContextValue { kind: 1, value: 65 };
    let b = ContextValue { kind: 1, value: 66 };
    let (mut renderer, root) = setup();
    let nested = Element::context(Key::new(1), b, Element::context(Key::new(2), a, reader()));
    let mut instance = renderer.render(nested, root).unwrap();
    assert_eq!(observed(&mut renderer), vec![65]);
    assert_eq!(instance.edges()[0].edges()[0].context(1), Some(65));

    assert_eq!(renderer.update(&mut instance, Element::context(Key::new(1), b, reader())), Ok(()));
    let batch = renderer.take().unwrap();
    assert_eq!(
        batch,
        vec![
            Command::Mount(ContainerID(2), ContainerID(0), Builtin(66)),
            Command::Unmount(ContainerID(1)),
        ]
    );
    assert_eq!(instance.edges()[0].context(1), Some(66));
}

#[test]
fn effects_of_children_run_before_those_of_parents() {
    let (mut renderer, root) = setup();
    let parent = Element::new(Key::new(1), Widget::Named { name: 80, child: 67 }, Element::empty());
    let mut instance = renderer.render(parent, root).unwrap();
    assert_eq!(
        renderer.take(),
        Some(vec![
            Command::Mutate(vec![], Mutator::Platform(67)),
            Command::Mutate(vec![], Mutator::Platform(80)),
        ])
    );
    let mut pass = Render::new(renderer);
    pass.rerender(&mut instance).unwrap();
    let mut renderer = pass.commit();
    assert_eq!(
        renderer.take(),
        Some(vec![
            Command::Mutate(vec![], Mutator::Platform(67)),
            Command::Mutate(vec![], Mutator::Platform(80)),
        ])
    );
}

#[test]
fn text_cannot_be_rendered() {
    let (mut renderer, root) = setup();
    let text: Element<Widget> = Element::string("hello");
    assert_eq!(renderer.render(text, root).err(), Some(RenderError::Invalid));
    assert_eq!(renderer.take(), None);
    let inside = Element::builtin(Key::new(1), Builtin(1), Element::string("hello"), None);
    assert_eq!(renderer.render::<Widget>(inside, root).err(), Some(RenderError::Invalid));
    let returned = Element::new(Key::new(1), Widget::Pass, Element::string("hello"));
    assert_eq!(renderer.render(returned, root).err(), Some(RenderError::Invalid));
    assert_eq!(renderer.take(), None);
}

#[test]
fn siblings_need_keys_of_their_own() {
    let (mut renderer, root) = setup();
    let twins = Element::fragment(Key::new(0), vec![leaf(10, 65), leaf(10, 66)]);
    assert!(!twins.is_renderable());
    assert_eq!(renderer.render(twins, root).err(), Some(RenderError::Invalid));
}

#[test]
fn stale_setter_is_inert() {
    let mut compositor = Compositor::new();
    let root = compositor.track().unwrap();
    let element = Element::fragment(
        Key::new(0),
        vec![Element::new(Key::new(5), Widget::Counter, Element::empty())],
    );
    let mut renderer = Renderer::new(compositor, Bus::new(), 16);
    let mut instance = renderer.render(element, root).unwrap();
    renderer.take().unwrap();
    let counter = instance.edges()[0].link();
    assert_eq!(renderer.update(&mut instance, Element::fragment(Key::new(0), vec![])), Ok(()));
    assert_eq!(renderer.take(), Some(vec![Command::Unmount(ContainerID(1))]));

    renderer.queue_retain(Task::Update { link: counter, slot: 0, value: 9 });
    assert_eq!(renderer.process(&mut instance), Outcome::Stale);
    assert_eq!(renderer.take(), None);
    assert_eq!(renderer.process(&mut instance), Outcome::Idle);
}

#[test]
fn a_component_that_takes_the_key_of_a_context_sees_the_outer_value() {
    let a = ContextValue { kind: 1, value: 65 };
    let b = ContextValue { kind: 1, value: 66 };
    let reader = |key| Element::new(Key::new(key), Widget::Reader, Element::empty());
    let (mut renderer, root) = setup();
    let nested = Element::context(Key::new(1), b, Element::context(Key::new(2), a, reader(3)));
    let mut instance = renderer.render(nested, root).unwrap();
    assert_eq!(observed(&mut renderer), vec![65]);
    // The component now stands under the key that the inner context had.
    assert_eq!(
        renderer.update(&mut instance, Element::context(Key::new(1), b, reader(2))),
        Ok(())
    );
    let batch = renderer.take().unwrap();
    assert_eq!(
        batch,
        vec![
            Command::Mount(ContainerID(2), ContainerID(0), Builtin(66)),
            Command::Unmount(ContainerID(1)),
        ]
    );
    assert_eq!(instance.edges()[0].context(1), Some(66));
}

#[test]
fn a_context_that_turns_into_a_fragment_binds_nothing() {
    let a = ContextValue { kind: 1, value: 65 };
    let reader = || Element::new(Key::new(3), Widget::Reader, Element::empty());
    let (mut renderer, root) = setup();
    let mut instance = renderer.render(Element::context(Key::new(1), a, reader()), root).unwrap();
    assert_eq!(observed(&mut renderer), vec![65]);
    let plain = Element::fragment(Key::new(1), vec![reader()]);
    assert_eq!(renderer.update(&mut instance, plain), Ok(()));
    assert_eq!(instance.context(1), None);
    assert_eq!(instance.edges()[0].context(1), None);
}

#[test]
fn effects_of_siblings_run_in_the_order_of_the_elements() {
    let (mut renderer, root) = setup();
    let x = Element::new(Key::new(1), Widget::Named { name: 10, child: 0 }, Element::empty());
    let y = Element::new(Key::new(2), Widget::Named { name: 20, child: 0 }, Element::empty());
    let between = leaf(3, 65);
    let tree = Element::fragment(Key::new(0), vec![x, between, y]);
    let mut instance = renderer.render(tree, root).unwrap();
    assert_eq!(
        renderer.take(),
        Some(vec![
            Command::Mutate(vec![], Mutator::Platform(10)),
            Command::Mount(ContainerID(1), ContainerID(0), Builtin(65)),
            Command::Mutate(vec![], Mutator::Platform(20)),
        ])
    );
    assert_eq!(instance.edges().len(), 3);
    // A later pass takes the elements in their order, not the children in theirs.
    let x = Element::new(Key::new(1), Widget::Named { name: 10, child: 0 }, Element::empty());
    let y = Element::new(Key::new(2), Widget::Named { name: 20, child: 0 }, Element::empty());
    let swapped = Element::fragment(Key::new(0), vec![y, leaf(4, 66), x]);
    assert_eq!(renderer.update(&mut instance, swapped), Ok(()));
    assert_eq!(
        renderer.take(),
        Some(vec![
            Command::Mutate(vec![], Mutator::Platform(20)),
            Command::Mount(ContainerID(2), ContainerID(0), Builtin(66)),
            Command::Mutate(vec![], Mutator::Platform(10)),
            Command::Unmount(ContainerID(1)),
        ])
    );
}

#[test]
fn a_component_at_the_limit_gives_no_tree() {
    let mut compositor = Compositor::new();
    let root = compositor.track().unwrap();
    let counter = Element::new(Key::new(1), Widget::Counter, Element::empty());
    let tree = render(counter, root, compositor, Bus::new(), 0);
    assert_eq!(tree.err(), Some(RenderError::Depth));
}

#[test]
fn an_update_of_a_slot_without_state_stores_nothing() {
    let mut compositor = Compositor::new();
    let root = compositor.track().unwrap();
    let counter = Element::new(Key::new(1), Widget::Counter, Element::empty());
    let mut tree = render(counter, root, compositor, Bus::new(), 1).unwrap();
    tree.take().unwrap();
    let link = tree.instance().link();
    // The first task names a slot that holds no state: the update is not
    // stored, and the pass that follows finds everything as it was.
    tree.queue_retain(Task::Update { link, slot: 1, value: 9 });
    tree.set_state(State { link, slot: 0, value: 0 }, 3);
    assert_eq!(tree.process(), Outcome::Rendered);
    assert_eq!(tree.take(), Some(vec![Command::Mutate(vec![ContainerID(1)], Mutator::Platform(0))]));
    assert_eq!(tree.process(), Outcome::Rendered);
    assert_eq!(tree.take(), Some(vec![Command::Mutate(vec![ContainerID(1)], Mutator::Platform(3))]));
    let mut renderer = tree.dispose();
    assert_eq!(renderer.take(), Some(vec![Command::Unmount(ContainerID(1))]));
}
