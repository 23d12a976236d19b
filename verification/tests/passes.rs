use reconciler::{
    Builtin, Bus, Command, Component, Compositor, ContainerID, Effect, Element, Instance, Key, Link,
    Manager, Mutator, Outcome, Reference, Render, RenderError, Renderer, State, Task,
};

#[derive(Clone, Copy, Debug, PartialEq, Eq)]
enum Part {
    /// Takes a state slot on its first render and a reference slot once the
    /// state is no longer 0.
    Fickle,
    /// Renders itself again below itself, without end.
    Endless,
    /// Submits task 77 and renders nothing.
    Worker,
    /// Queues an effect under the condition that is its state, and renders
    /// nothing.
    Guarded,
    /// Renders a builtin whose descriptor is its identifier slot.
    Numbered,
}

impl Component for Part {
    fn render(&self, manager: &mut Manager<Self>) -> Element<Self> {
        match *self {
            Part::Fickle => {
                let first = manager.use_state(0);
                if first.get() == 0 {
                    manager.use_state(5);
                } else {
                    manager.use_reference();
                }
                Element::empty()
            }
            Part::Endless => Element::new(Key::new(1), Part::Endless, Element::empty()),
            Part::Worker => {
                manager.use_async(77);
                Element::empty()
            }
            Part::Guarded => {
                let state = manager.use_state(0);
                let conditions = state.get() / 2;
                manager.use_effect(
                    Some(conditions),
                    Effect::new(vec![], Mutator::Platform(state.get())),
                );
                Element::empty()
            }
            Part::Numbered => {
                manager.use_state(0);
                let id = manager.use_id();
                Element::builtin(Key::new(1), Builtin(id as u64), Element::empty(), None)
            }
        }
    }
}

fn setup(depth: usize) -> (Renderer, ContainerID) {
    let mut compositor = Compositor::new();
    let root = compositor.track().unwrap();
    (Renderer::new(compositor, Bus::new(), depth), root)
}

fn leaf(key: u64, descriptor: u64) -> Element<Part> {
    Element::builtin(Key::new(key), Builtin(descriptor), Element::empty(), None)
}

fn nest(key: u64, descriptor: u64, children: Vec<Element<Part>>) -> Element<Part> {
    Element::builtin(
        Key::new(key),
        Builtin(descriptor),
        Element::fragment(Key::new(0), children),
        None,
    )
}

fn again(renderer: Renderer, instance: &mut Instance<Part>) -> Renderer {
    let mut pass = Render::new(renderer);
    pass.rerender(instance).unwrap();
    pass.commit()
}

#[test]
fn builtins_are_mounted_into_the_nearest_builtin_above() {
    let (mut renderer, root) = setup(4);
    let tree = nest(1, 65, vec![leaf(2, 66), nest(3, 67, vec![leaf(4, 68)])]);
    let instance = renderer.render(tree, root).unwrap();
    assert_eq!(
        renderer.take(),
        Some(vec![
            Command::Mount(ContainerID(1), ContainerID(0), Builtin(65)),
            Command::Mount(ContainerID(2), ContainerID(1), Builtin(66)),
            Command::Mount(ContainerID(3), ContainerID(1), Builtin(67)),
            Command::Mount(ContainerID(4), ContainerID(3), Builtin(68)),
        ])
    );
    // Fragments target the container of the builtin above them.
    assert_eq!(instance.edges()[0].container(), ContainerID(1));
    assert_eq!(instance.edges()[0].edges()[1].container(), ContainerID(3));
    renderer.unmount(instance);
    assert_eq!(
        renderer.take(),
        Some(vec![
            Command::Unmount(ContainerID(2)),
            Command::Unmount(ContainerID(4)),
            Command::Unmount(ContainerID(3)),
            Command::Unmount(ContainerID(1)),
        ])
    );
}

#[test]
fn rendering_the_same_elements_again_records_nothing() {
    let (mut renderer, root) = setup(4);
    let tree = || nest(1, 65, vec![leaf(2, 66), nest(3, 67, vec![leaf(4, 68)])]);
    let mut instance = renderer.render(tree(), root).unwrap();
    renderer.take().unwrap();
    let renderer = again(renderer, &mut instance);
    assert!(instance.update(tree()).is_ok());
    let mut renderer = again(renderer, &mut instance);
    assert_eq!(renderer.take(), Some(vec![]));
    assert_eq!(renderer.take(), Some(vec![]));
    assert_eq!(renderer.take(), None);
}

#[test]
fn a_new_key_is_rendered_behind_the_kept_children() {
    let (mut renderer, root) = setup(4);
    let first = Element::fragment(Key::new(0), vec![leaf(1, 65), leaf(2, 66)]);
    let mut instance = renderer.render(first, root).unwrap();
    renderer.take().unwrap();
    assert!(instance.update(Element::fragment(Key::new(0), vec![leaf(3, 67), leaf(2, 66)])).is_ok());
    let mut renderer = again(renderer, &mut instance);
    assert_eq!(
        renderer.take(),
        Some(vec![
            Command::Mount(ContainerID(3), ContainerID(0), Builtin(67)),
            Command::Unmount(ContainerID(1)),
        ])
    );
    let ids: Vec<_> = instance.edges().iter().map(|e| e.container()).collect();
    assert_eq!(ids, vec![ContainerID(2), ContainerID(3)]);
}

#[test]
fn every_mounted_container_is_unmounted_once() {
    let (mut renderer, root) = setup(4);
    let first = Element::fragment(Key::new(0), vec![nest(1, 65, vec![leaf(5, 1)]), leaf(2, 66)]);
    let mut instance = renderer.render(first, root).unwrap();
    assert!(instance.update(Element::fragment(Key::new(0), vec![leaf(2, 66), leaf(3, 67)])).is_ok());
    let renderer = again(renderer, &mut instance);
    assert!(instance.update(Element::fragment(Key::new(0), vec![nest(3, 67, vec![leaf(6, 2)])])).is_ok());
    let mut renderer = again(renderer, &mut instance);
    renderer.unmount(instance);
    let mut mounted = vec![];
    let mut unmounted = vec![];
    while let Some(batch) = renderer.take() {
        for command in batch {
            match command {
                Command::Mount(id, _, _) => mounted.push(id),
                Command::Unmount(id) => unmounted.push(id),
                Command::Mutate(..) => {}
            }
        }
    }
    assert_eq!(mounted, (1..=5).map(ContainerID).collect::<Vec<_>>());
    unmounted.sort_by_key(|id| id.0);
    assert_eq!(unmounted, mounted);
}

#[test]
fn a_key_that_changes_sides_is_rendered_anew() {
    let (mut renderer, root) = setup(4);
    let first = Element::fragment(Key::new(0), vec![leaf(1, 65)]);
    let mut instance = renderer.render(first, root).unwrap();
    renderer.take().unwrap();
    let text: Element<Part> = Element::string("no");
    assert_eq!(renderer.update(&mut instance, text), Err(RenderError::Invalid));
    assert_eq!(renderer.take(), None);
    let old = instance.edges()[0].link();
    let second =
        Element::fragment(Key::new(0), vec![Element::fragment(Key::new(1), vec![leaf(2, 66)])]);
    assert_eq!(renderer.update(&mut instance, second), Ok(()));
    // The builtin under key 1 is gone with its container; the fragment that
    // took its key is a new instance in the container of its parent.
    assert_eq!(
        renderer.take(),
        Some(vec![
            Command::Mount(ContainerID(2), ContainerID(0), Builtin(66)),
            Command::Unmount(ContainerID(1)),
        ])
    );
    assert_eq!(instance.edges().len(), 1);
    assert!(instance.edges()[0].link() != old);
    assert_eq!(instance.edges()[0].container(), ContainerID(0));
    // And back again.
    let third = Element::fragment(Key::new(0), vec![leaf(1, 67)]);
    assert_eq!(renderer.update(&mut instance, third), Ok(()));
    assert_eq!(
        renderer.take(),
        Some(vec![
            Command::Mount(ContainerID(3), ContainerID(0), Builtin(67)),
            Command::Unmount(ContainerID(2)),
        ])
    );
    renderer.unmount(instance);
    assert_eq!(renderer.take(), Some(vec![Command::Unmount(ContainerID(3))]));
}

#[test]
fn a_root_that_changes_sides_is_refused() {
    let (mut renderer, root) = setup(4);
    let mut instance = renderer.render(leaf(1, 65), root).unwrap();
    assert_eq!(renderer.take().unwrap().len(), 1);
    // The root owns a container: it cannot come to stand for a fragment.
    let fragment = Element::fragment(Key::new(1), vec![leaf(2, 66)]);
    assert_eq!(renderer.update(&mut instance, fragment), Err(RenderError::Invalid));
    assert_eq!(renderer.take(), None);
    assert!(instance.is_builtin());
    let fragment = Element::fragment(Key::new(1), vec![]);
    assert!(instance.update(fragment).is_err());
    assert!(instance.is_builtin());
    assert_eq!(renderer.update(&mut instance, leaf(1, 66)), Ok(()));
    assert_eq!(renderer.take(), Some(vec![]));
    // Taken down, the tree gives up the one container that it mounted.
    renderer.unmount(instance);
    assert_eq!(renderer.take(), Some(vec![Command::Unmount(ContainerID(1))]));
}

#[test]
fn nesting_beyond_the_limit_fails() {
    let (mut renderer, root) = setup(3);
    let endless = Element::new(Key::new(1), Part::Endless, Element::empty());
    assert_eq!(renderer.render(endless, root).err(), Some(RenderError::Depth));
    assert_eq!(renderer.take(), None);
    let (mut renderer, root) = setup(0);
    let worker = Element::new(Key::new(1), Part::Worker, Element::empty());
    assert_eq!(renderer.render(worker, root).err(), Some(RenderError::Depth));
}

#[test]
fn ids_run_out() {
    let mut compositor = Compositor::resume(usize::MAX);
    assert!(compositor.exhausted());
    assert_eq!(compositor.track(), None);
    let mut compositor = Compositor::resume(usize::MAX - 1);
    let root = compositor.track().unwrap();
    assert_eq!(root, ContainerID(usize::MAX - 1));
    let mut renderer = Renderer::new(compositor, Bus::new(), 4);
    assert_eq!(renderer.render(leaf(1, 65), root).err(), Some(RenderError::Exhausted));
    assert_eq!(renderer.take(), None);
    // An element that asks for no container still renders.
    let none: Element<Part> = Element::empty();
    assert!(renderer.render(none, root).is_ok());
}

#[test]
fn hooks_out_of_order_fail_the_pass() {
    let (mut renderer, root) = setup(4);
    let fickle = Element::new(Key::new(1), Part::Fickle, Element::empty());
    let mut instance = renderer.render(fickle, root).unwrap();
    renderer.take().unwrap();
    renderer.queue_retain(Task::Update { link: instance.link(), slot: 0, value: 1 });
    assert_eq!(renderer.process(&mut instance), Outcome::Failed(RenderError::Hooks));
    assert_eq!(renderer.take(), None);
}

#[test]
fn an_asynchronous_task_is_submitted_once() {
    let (mut renderer, root) = setup(4);
    let worker = Element::new(Key::new(1), Part::Worker, Element::empty());
    let mut instance = renderer.render(worker, root).unwrap();
    let link = instance.link();
    assert_eq!(renderer.process(&mut instance), Outcome::Spawn { link, task: 77 });
    assert_eq!(renderer.process(&mut instance), Outcome::Idle);
    renderer.rerender(&instance);
    assert_eq!(renderer.process(&mut instance), Outcome::Rendered);
    assert_eq!(renderer.process(&mut instance), Outcome::Idle);
}

#[test]
fn updates_are_seen_in_the_order_of_their_setters() {
    let (mut renderer, root) = setup(4);
    let guarded = Element::new(Key::new(1), Part::Guarded, Element::empty());
    let mut instance = renderer.render(guarded, root).unwrap();
    assert_eq!(renderer.take(), Some(vec![Command::Mutate(vec![], Mutator::Platform(0))]));
    let state = State { link: instance.link(), slot: 0, value: 0 };
    let mut bus_side = Bus::new();
    for value in [2, 4, 6] {
        state.replace(&mut bus_side, value);
    }
    while let Some(task) = bus_side.next() {
        renderer.queue_retain(task);
    }
    for value in [2, 4, 6] {
        assert_eq!(renderer.process(&mut instance), Outcome::Rendered);
        assert_eq!(
            renderer.take(),
            Some(vec![Command::Mutate(vec![], Mutator::Platform(value))])
        );
    }
    assert_eq!(renderer.process(&mut instance), Outcome::Idle);
}

#[test]
fn an_effect_runs_again_only_when_its_conditions_change() {
    let (mut renderer, root) = setup(4);
    let guarded = Element::new(Key::new(1), Part::Guarded, Element::empty());
    let mut instance = renderer.render(guarded, root).unwrap();
    assert_eq!(renderer.take(), Some(vec![Command::Mutate(vec![], Mutator::Platform(0))]));
    // 0 / 2 == 1 / 2: the conditions stay and the effect is not queued.
    renderer.queue_retain(Task::Update { link: instance.link(), slot: 0, value: 1 });
    assert_eq!(renderer.process(&mut instance), Outcome::Rendered);
    assert_eq!(renderer.take(), Some(vec![]));
    renderer.queue_retain(Task::Update { link: instance.link(), slot: 0, value: 2 });
    assert_eq!(renderer.process(&mut instance), Outcome::Rendered);
    assert_eq!(renderer.take(), Some(vec![Command::Mutate(vec![], Mutator::Platform(2))]));
}

#[test]
fn an_identifier_is_its_position() {
    let (mut renderer, root) = setup(4);
    let numbered = Element::new(Key::new(1), Part::Numbered, Element::empty());
    let mut instance = renderer.render(numbered, root).unwrap();
    assert_eq!(
        renderer.take(),
        Some(vec![Command::Mount(ContainerID(1), ContainerID(0), Builtin(1))])
    );
    renderer.rerender(&instance);
    assert_eq!(renderer.process(&mut instance), Outcome::Rendered);
    assert_eq!(renderer.take(), Some(vec![]));
}

#[test]
fn batches_are_taken_in_the_order_of_their_commits() {
    let (mut renderer, root) = setup(4);
    let first = renderer.render(leaf(1, 65), root).unwrap();
    let second = renderer.render(leaf(2, 66), root).unwrap();
    renderer.unmount(first);
    assert_eq!(
        renderer.take(),
        Some(vec![Command::Mount(ContainerID(1), ContainerID(0), Builtin(65))])
    );
    assert_eq!(
        renderer.take(),
        Some(vec![Command::Mount(ContainerID(2), ContainerID(0), Builtin(66))])
    );
    assert_eq!(renderer.take(), Some(vec![Command::Unmount(ContainerID(1))]));
    assert_eq!(second.container(), ContainerID(2));
}

#[test]
fn completing_a_component_renders_its_output_then_runs_its_effects() {
    let (renderer, root) = setup(4);
    let mut pass = Render::new(renderer);
    let element = Element::new(Key::new(1), Part::Worker, Element::empty());
    let mut instance = Instance::new(Link(99), None, element, root);
    let effects = vec![Effect::new(vec![], Mutator::Platform(3)), Effect::layout()];
    assert_eq!(pass.complete(&mut instance, leaf(2, 66), effects), Ok(()));
    // The output is in place: completing again with it mounts nothing.
    let again = vec![Effect::new(vec![], Mutator::Platform(4))];
    assert_eq!(pass.complete(&mut instance, leaf(2, 66), again), Ok(()));
    let mut renderer = pass.commit();
    assert_eq!(
        renderer.take(),
        Some(vec![
            Command::Mount(ContainerID(1), ContainerID(0), Builtin(66)),
            Command::Mutate(vec![], Mutator::Platform(3)),
            Command::Mutate(vec![], Mutator::Layout),
            Command::Mutate(vec![], Mutator::Platform(4)),
        ])
    );
    assert_eq!(instance.edges().len(), 1);
    assert_eq!(instance.edges()[0].container(), ContainerID(1));
}

#[test]
fn mounting_records_the_parent_and_the_descriptor() {
    let (renderer, root) = setup(4);
    let mut pass = Render::new(renderer);
    assert_eq!(pass.mount(root, Builtin(65), None), Ok(ContainerID(1)));
    // A reference that names no cell is passed over.
    assert_eq!(
        pass.mount(ContainerID(1), Builtin(66), Some(Reference(9))),
        Ok(ContainerID(2))
    );
    let mut renderer = pass.commit();
    assert_eq!(
        renderer.take(),
        Some(vec![
            Command::Mount(ContainerID(1), ContainerID(0), Builtin(65)),
            Command::Mount(ContainerID(2), ContainerID(1), Builtin(66)),
        ])
    );
}

#[test]
fn a_failed_pass_leaves_the_tree_as_it_was() {
    let (mut renderer, root) = setup(4);
    let fickle = Element::new(Key::new(1), Part::Fickle, Element::empty());
    let mut instance = renderer.render(fickle, root).unwrap();
    renderer.take().unwrap();
    let hooks = instance.hooks().clone();
    renderer.queue_retain(Task::Update { link: instance.link(), slot: 0, value: 1 });
    renderer.rerender(&instance);
    assert_eq!(renderer.process(&mut instance), Outcome::Failed(RenderError::Hooks));
    assert_eq!(instance.hooks(), &hooks);
    assert_eq!(renderer.take(), None);
    // The bus goes on with the task behind the one that failed.
    assert_eq!(renderer.process(&mut instance), Outcome::Rendered);
    assert_eq!(renderer.take(), Some(vec![]));
    assert_eq!(renderer.process(&mut instance), Outcome::Idle);
}

#[test]
fn a_failed_update_mounts_and_keeps_nothing() {
    let (mut renderer, root) = setup(3);
    let first = Element::fragment(Key::new(0), vec![leaf(2, 66)]);
    let mut instance = renderer.render(first, root).unwrap();
    renderer.take().unwrap();
    let endless = Element::new(Key::new(4), Part::Endless, Element::empty());
    let second = Element::fragment(Key::new(0), vec![leaf(3, 67), endless]);
    assert_eq!(renderer.update(&mut instance, second), Err(RenderError::Depth));
    assert_eq!(renderer.take(), None);
    assert_eq!(instance.edges().len(), 1);
    assert_eq!(instance.edges()[0].container(), ContainerID(1));
    // The id that the failed pass took for the new leaf is not handed out again.
    let third = Element::fragment(Key::new(0), vec![leaf(2, 66), leaf(3, 67)]);
    assert_eq!(renderer.update(&mut instance, third), Ok(()));
    assert_eq!(
        renderer.take(),
        Some(vec![Command::Mount(ContainerID(3), ContainerID(0), Builtin(67))])
    );
    renderer.unmount(instance);
    assert_eq!(
        renderer.take(),
        Some(vec![Command::Unmount(ContainerID(1)), Command::Unmount(ContainerID(3))])
    );
}

#[test]
fn a_copy_of_a_tree_is_the_tree_again() {
    let (mut renderer, root) = setup(4);
    let tree = nest(1, 65, vec![leaf(2, 66), nest(3, 67, vec![leaf(4, 68)])]);
    let instance = renderer.render(tree, root).unwrap();
    let copy = instance.duplicate();
    assert_eq!(copy.link(), instance.link());
    assert_eq!(copy.container(), instance.container());
    assert_eq!(copy.edges()[0].edges().len(), 2);
    assert_eq!(copy.edges()[0].edges()[1].container(), ContainerID(3));
    assert!(copy.contains(instance.edges()[0].edges()[1].edges()[0].link()));
    renderer.take().unwrap();
    renderer.unmount(copy);
    assert_eq!(
        renderer.take(),
        Some(vec![
            Command::Unmount(ContainerID(2)),
            Command::Unmount(ContainerID(4)),
            Command::Unmount(ContainerID(3)),
            Command::Unmount(ContainerID(1)),
        ])
    );
}

#[test]
fn a_tree_goes_on_after_a_failed_turn() {
    let mut compositor = Compositor::new();
    let root = compositor.track().unwrap();
    let fickle = Element::new(Key::new(1), Part::Fickle, Element::empty());
    let mut tree = reconciler::render(fickle, root, compositor, Bus::new(), 4).unwrap();
    tree.take().unwrap();
    let link = tree.instance().link();
    tree.set_state(State { link, slot: 0, value: 0 }, 1);
    tree.queue_retain(Task::Rerender { link });
    assert_eq!(tree.process(), Outcome::Failed(RenderError::Hooks));
    assert_eq!(tree.take(), None);
    assert_eq!(tree.process(), Outcome::Rendered);
    assert_eq!(tree.take(), Some(vec![]));
    assert_eq!(tree.process(), Outcome::Idle);
    let mut renderer = tree.dispose();
    assert_eq!(renderer.take(), Some(vec![]));
}
