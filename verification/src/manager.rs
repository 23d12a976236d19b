//! The manager: what a component may do while it renders.
//!
//! Hooks are positional. Each call of `use_state`, `use_reference`,
//! `use_effect`, `use_async` or `use_id` takes the next slot of the
//! instance's memory, so a component has to call them in the same order on
//! every render. A call that finds a slot of another kind, or no slot where
//! one should be, marks the render as broken, and the pass that ran the
//! component fails.

use crate::builtin::Mutator;
use crate::bus::{Bus, Task};
use crate::compositor::ContainerID;
use crate::context::ContextFrame;
use crate::element::{Element, Node};
use crate::instance::{Link, Slot};
use crate::reference::{Cells, Reference};
use vstd::prelude::*;

verus! {

/// A state value as a component read it, with what a setter needs to reach
/// the slot again.
#[derive(Clone, Copy, Debug, PartialEq, Eq, Hash, Structural)]
pub struct State {
    pub link: Link,
    pub slot: usize,
    pub value: u64,
}

impl State {
    /// The value that the slot held when the component rendered.
    pub fn get(&self) -> (value: u64)
        ensures
            value == self.value,
    {
        self.value
    }

    /// The setter: queues the storing of `value` and the render that
    /// follows it. Nothing is stored before the bus reaches the task, and
    /// nothing at all if the instance is gone by then.
    pub fn replace(&self, bus: &mut Bus, value: u64)
        ensures
            final(bus)@ == old(bus)@.push(Task::Update { link: self.link, slot: self.slot, value }),
    {
        bus.queue_retain(Task::Update { link: self.link, slot: self.slot, value });
    }
}

/// Work that a component leaves for the end of its render: a change to the
/// containers that `targets` name by then.
#[derive(Debug)]
pub struct Effect {
    pub(crate) targets: Vec<Reference>,
    pub(crate) mutator: Mutator,
}

impl View for Effect {
    type V = (Seq<Reference>, Mutator);

    /// The targets and the change.
    open(crate) spec fn view(&self) -> (Seq<Reference>, Mutator) {
        (self.targets@, self.mutator)
    }
}

impl Effect {
    /// An effect that applies `mutator` to the containers of `targets`.
    pub fn new(targets: Vec<Reference>, mutator: Mutator) -> (effect: Effect)
        ensures
            effect@ == (targets@, mutator),
    {
        Effect { targets, mutator }
    }

    /// An effect that asks for a layout pass.
    pub fn layout() -> (effect: Effect)
        ensures
            effect@ == (Seq::<Reference>::empty(), Mutator::Layout),
    {
        Effect { targets: Vec::new(), mutator: Mutator::Layout }
    }
}

/// The values of a sequence of effects.
pub open spec fn effects_of(effects: Seq<Effect>) -> Seq<(Seq<Reference>, Mutator)> {
    Seq::new(effects.len(), |i: int| effects[i]@)
}

/// What is left of a manager when its component has rendered.
pub struct Rendered {
    pub submitted: Vec<Task>,
    pub cells: Cells,
    pub slots: Vec<Slot>,
    pub effects: Vec<Effect>,
    pub broken: bool,
}

/// The capabilities of a component while it renders one instance.
pub struct Manager<C> {
    submitted: Vec<Task>,
    cells: Cells,
    slots: Vec<Slot>,
    cursor: usize,
    broken: bool,
    context: ContextFrame,
    children: Element<C>,
    effects: Vec<Effect>,
    link: Link,
}

impl<C> Manager<C> {
    /// The tasks that the render has submitted so far. They are handed to
    /// the bus when the component has returned.
    pub closed spec fn submitted(&self) -> Seq<Task> {
        self.submitted@
    }

    /// The reference cells.
    pub closed spec fn cells(&self) -> Seq<Option<ContainerID>> {
        self.cells@
    }

    /// The slots of the instance's memory.
    pub closed spec fn slots(&self) -> Seq<Slot> {
        self.slots@
    }

    /// The position that the next hook takes.
    pub closed spec fn cursor(&self) -> nat {
        self.cursor as nat
    }

    /// Whether a hook found a slot of another kind.
    pub closed spec fn broken(&self) -> bool {
        self.broken
    }

    /// The bindings that the instance sees.
    pub closed spec fn context(&self) -> Map<u64, u64> {
        self.context@
    }

    /// The element that the component was given as its children.
    pub closed spec fn given(&self) -> Node<C> {
        self.children@
    }

    /// The effects queued so far.
    pub closed spec fn effects(&self) -> Seq<(Seq<Reference>, Mutator)> {
        effects_of(self.effects@)
    }

    /// The instance that is rendered.
    pub closed spec fn target(&self) -> Link {
        self.link
    }

    /// A manager for one render of the instance `link`: at the first slot,
    /// unbroken, with no effect queued.
    pub fn new(
        cells: Cells,
        slots: Vec<Slot>,
        context: ContextFrame,
        children: Element<C>,
        link: Link,
    ) -> (manager: Manager<C>)
        ensures
            manager.submitted() == Seq::<Task>::empty(),
            manager.cells() == cells@,
            manager.slots() == slots@,
            manager.cursor() == 0,
            !manager.broken(),
            manager.context() == context@,
            manager.given() == children@,
            manager.effects() == Seq::<(Seq<Reference>, Mutator)>::empty(),
            manager.target() == link,
    {
        let manager = Manager {
            submitted: Vec::new(),
            cells,
            slots,
            cursor: 0,
            broken: false,
            context,
            children,
            effects: Vec::new(),
            link,
        };
        assert(manager.effects() =~= Seq::<(Seq<Reference>, Mutator)>::empty());
        manager
    }

    /// Takes the manager apart when the component has returned.
    pub fn finish(self) -> (rendered: Rendered)
        ensures
            rendered.submitted@ == self.submitted(),
            rendered.cells@ == self.cells(),
            rendered.slots@ == self.slots(),
            effects_of(rendered.effects@) == self.effects(),
            rendered.broken == self.broken(),
    {
        Rendered {
            submitted: self.submitted,
            cells: self.cells,
            slots: self.slots,
            effects: self.effects,
            broken: self.broken,
        }
    }

    /// The instance that is rendered, for a setter or a task to name later.
    pub fn link(&self) -> (link: Link)
        ensures
            link == self.target(),
    {
        self.link
    }

    /// The value that the nearest `Context` element above the instance
    /// binds for `kind`.
    pub fn use_context(&self, kind: u64) -> (value: Option<u64>)
        ensures
            value == (if self.context().dom().contains(kind) {
                Some(self.context()[kind])
            } else {
                None
            }),
    {
        self.context.get(kind)
    }

    /// What a reference cell holds now.
    pub fn current(&self, reference: Reference) -> (id: Option<ContainerID>)
        ensures
            id == (if reference.0 < self.cells().len() {
                self.cells()[reference.0 as int]
            } else {
                None
            }),
    {
        self.cells.get(reference)
    }

    /// The state slot at the cursor. On the first render the slot is made
    /// with `initial`; later the value that the slot holds is read.
    pub fn use_state(&mut self, initial: u64) -> (state: State)
        ensures
            old(self).cursor() <= old(self).slots().len() ==> final(self).cursor() == old(self).cursor() + 1,
            old(self).cursor() > old(self).slots().len() ==> final(self).broken() && final(self).slots()
                == old(self).slots() && final(self).cursor() == old(self).cursor(),
            final(self).submitted() == old(self).submitted(),
            final(self).cells() == old(self).cells(),
            final(self).effects() == old(self).effects(),
            final(self).context() == old(self).context(),
            final(self).given() == old(self).given(),
            final(self).target() == old(self).target(),
            state.link == old(self).target(),
            state.slot == old(self).cursor(),
            old(self).cursor() == old(self).slots().len() ==> final(self).slots() == old(self).slots().push(Slot::State(initial)) && state.value == initial && final(self).broken()
                == old(self).broken(),
            old(self).cursor() < old(self).slots().len() ==> final(self).slots() == old(self).slots(),
            old(self).cursor() < old(self).slots().len() ==> (match old(self).slots()[old(self).cursor() as int] {
                Slot::State(value) => state.value == value && final(self).broken() == old(self).broken(),
                _ => state.value == initial && final(self).broken(),
            }),
    {
        let slot = self.cursor;
        let value = if slot < self.slots.len() {
            match self.slots[slot] {
                Slot::State(value) => value,
                _ => {
                    self.broken = true;
                    initial
                },
            }
        } else if slot == self.slots.len() {
            self.slots.push(Slot::State(initial));
            initial
        } else {
            self.broken = true;
            initial
        };
        if slot < self.slots.len() {
            self.cursor = slot + 1;
        }
        State { link: self.link, slot, value }
    }

    /// The reference slot at the cursor. On the first render a cell is made
    /// for it; later renders get the same cell.
    pub fn use_reference(&mut self) -> (reference: Reference)
        ensures
            old(self).cursor() <= old(self).slots().len() ==> final(self).cursor() == old(self).cursor() + 1,
            old(self).cursor() > old(self).slots().len() ==> final(self).broken() && final(self).slots()
                == old(self).slots() && final(self).cursor() == old(self).cursor(),
            final(self).submitted() == old(self).submitted(),
            final(self).effects() == old(self).effects(),
            final(self).context() == old(self).context(),
            final(self).given() == old(self).given(),
            final(self).target() == old(self).target(),
            old(self).cursor() == old(self).slots().len() ==> reference == Reference(
                old(self).cells().len() as usize,
            ) && final(self).cells() == old(self).cells().push(None) && final(self).slots() == old(self).slots().push(Slot::Reference(reference)) && final(self).broken() == old(self).broken(),
            old(self).cursor() < old(self).slots().len() ==> final(self).slots() == old(self).slots() && final(self).cells() == old(self).cells(),
            old(self).cursor() < old(self).slots().len() ==> (match old(self).slots()[old(self).cursor() as int] {
                Slot::Reference(cell) => reference == cell && final(self).broken() == old(self).broken(),
                _ => reference == Reference(usize::MAX) && final(self).broken(),
            }),
    {
        let slot = self.cursor;
        let reference = if slot < self.slots.len() {
            match self.slots[slot] {
                Slot::Reference(cell) => cell,
                _ => {
                    self.broken = true;
                    Reference(usize::MAX)
                },
            }
        } else if slot == self.slots.len() {
            let cell = self.cells.allocate();
            self.slots.push(Slot::Reference(cell));
            cell
        } else {
            self.broken = true;
            Reference(usize::MAX)
        };
        if slot < self.slots.len() {
            self.cursor = slot + 1;
        }
        reference
    }

    /// The effect slot at the cursor. The effect is queued for the end of
    /// this render if `conditions` is `None`, if the slot is new, or if
    /// `conditions` differs from what the slot recorded on the render
    /// before; the slot then records `conditions`.
    pub fn use_effect(&mut self, conditions: Option<u64>, effect: Effect)
        ensures
            old(self).cursor() <= old(self).slots().len() ==> final(self).cursor() == old(self).cursor() + 1,
            old(self).cursor() > old(self).slots().len() ==> final(self).broken() && final(self).slots()
                == old(self).slots() && final(self).cursor() == old(self).cursor(),
            final(self).submitted() == old(self).submitted(),
            final(self).cells() == old(self).cells(),
            final(self).context() == old(self).context(),
            final(self).given() == old(self).given(),
            final(self).target() == old(self).target(),
            old(self).cursor() == old(self).slots().len() ==> final(self).slots() == old(self).slots().push(Slot::Effect(conditions)) && final(self).effects() == old(self).effects().push(effect@) && final(self).broken() == old(self).broken(),
            old(self).cursor() < old(self).slots().len() ==> (match old(self).slots()[old(self).cursor() as int] {
                Slot::Effect(previous) => final(self).slots() == old(self).slots().update(
                    old(self).cursor() as int,
                    Slot::Effect(conditions),
                ) && final(self).broken() == old(self).broken() && final(self).effects() == (if conditions.is_none()
                    || previous != conditions {
                    old(self).effects().push(effect@)
                } else {
                    old(self).effects()
                }),
                _ => final(self).slots() == old(self).slots() && final(self).broken() && final(self).effects() == old(self).effects(),
            }),
    {
        let slot = self.cursor;
        let ghost before = self.effects();
        let run = if slot < self.slots.len() {
            match self.slots[slot] {
                Slot::Effect(previous) => {
                    self.slots[slot] = Slot::Effect(conditions);
                    match (previous, conditions) {
                        (Some(a), Some(b)) => a != b,
                        _ => true,
                    }
                },
                _ => {
                    self.broken = true;
                    false
                },
            }
        } else if slot == self.slots.len() {
            self.slots.push(Slot::Effect(conditions));
            true
        } else {
            self.broken = true;
            false
        };
        if run {
            self.effects.push(effect);
            assert(self.effects() =~= before.push(effect@));
        }
        if slot < self.slots.len() {
            self.cursor = slot + 1;
        }
    }

    /// The task slot at the cursor. On the first render `task` is submitted
    /// for the bus; later renders submit nothing.
    pub fn use_async(&mut self, task: u64)
        ensures
            old(self).cursor() <= old(self).slots().len() ==> final(self).cursor() == old(self).cursor() + 1,
            old(self).cursor() > old(self).slots().len() ==> final(self).broken() && final(self).slots()
                == old(self).slots() && final(self).cursor() == old(self).cursor(),
            final(self).cells() == old(self).cells(),
            final(self).effects() == old(self).effects(),
            final(self).context() == old(self).context(),
            final(self).given() == old(self).given(),
            final(self).target() == old(self).target(),
            old(self).cursor() == old(self).slots().len() ==> final(self).slots() == old(self).slots().push(Slot::Future(task)) && final(self).submitted() == old(self).submitted().push(
                Task::Async { link: old(self).target(), task },
            ) && final(self).broken() == old(self).broken(),
            old(self).cursor() < old(self).slots().len() ==> final(self).slots() == old(self).slots() && final(self).submitted() == old(self).submitted() && final(self).broken() == (old(self).broken() || !(old(self).slots()[old(self).cursor() as int] is Future)),
    {
        let slot = self.cursor;
        if slot < self.slots.len() {
            match self.slots[slot] {
                Slot::Future(_) => {},
                _ => {
                    self.broken = true;
                },
            }
        } else if slot == self.slots.len() {
            self.slots.push(Slot::Future(task));
            self.submitted.push(Task::Async { link: self.link, task });
        } else {
            self.broken = true;
        }
        if slot < self.slots.len() {
            self.cursor = slot + 1;
        }
    }

    /// The identifier slot at the cursor: its position, which is the same
    /// on every render of the instance.
    pub fn use_id(&mut self) -> (id: usize)
        ensures
            id == old(self).cursor(),
            old(self).cursor() <= old(self).slots().len() ==> final(self).cursor() == old(self).cursor() + 1,
            old(self).cursor() > old(self).slots().len() ==> final(self).broken() && final(self).slots()
                == old(self).slots() && final(self).cursor() == old(self).cursor(),
            final(self).submitted() == old(self).submitted(),
            final(self).cells() == old(self).cells(),
            final(self).effects() == old(self).effects(),
            final(self).context() == old(self).context(),
            final(self).given() == old(self).given(),
            final(self).target() == old(self).target(),
            old(self).cursor() == old(self).slots().len() ==> final(self).slots() == old(self).slots().push(Slot::Id) && final(self).broken() == old(self).broken(),
            old(self).cursor() < old(self).slots().len() ==> final(self).slots() == old(self).slots() && final(self).broken() == (old(self).broken() || !(old(self).slots()[old(self).cursor() as int] is Id)),
    {
        let slot = self.cursor;
        if slot < self.slots.len() {
            match self.slots[slot] {
                Slot::Id => {},
                _ => {
                    self.broken = true;
                },
            }
        } else if slot == self.slots.len() {
            self.slots.push(Slot::Id);
        } else {
            self.broken = true;
        }
        if slot < self.slots.len() {
            self.cursor = slot + 1;
        }
        slot
    }
}

impl<C: Copy> Manager<C> {
    /// A copy of the element that the component was given as its children.
    pub fn children(&self) -> (children: Element<C>)
        ensures
            children@ == self.given(),
    {
        self.children.duplicate()
    }
}

/// A user-defined part of the interface: given a manager, it says what
/// stands in its place. `render` is called once per pass for each instance
/// of the component, and the reconciler accepts whatever it returns.
pub trait Component: Sized + Copy {
    /// What stands in the component's place, given what `manager` lets the
    /// component see and keep.
    fn render(&self, manager: &mut Manager<Self>) -> (element: Element<Self>);
}

} // verus!
