//! Instances: the reconciler's record of each live element, and the memory
//! that an instance keeps from one pass to the next.

use crate::compositor::{lemma_tally_concat, tally, ContainerID};
use crate::context::ContextFrame;
use crate::element::{Element, Node};
use crate::key::Key;
use crate::reference::Reference;
use vstd::prelude::*;

verus! {

/// The identity of an instance. It is what a setter or a queued task holds
/// of its target: it does not own the instance, and once the instance is
/// gone it names nothing.
#[derive(Clone, Copy, Debug, PartialEq, Eq, Hash, Structural)]
pub struct Link(pub u64);

/// One positional record of a component's hooks.
#[derive(Clone, Copy, Debug, PartialEq, Eq, Hash, Structural)]
pub enum Slot {
    /// A state value.
    State(u64),
    /// A reference cell.
    Reference(Reference),
    /// An effect, with the conditions under which it last ran.
    Effect(Option<u64>),
    /// A task that was handed to the bus when the slot was made.
    Future(u64),
    /// A position that only serves as an identifier.
    Id,
}

/// What an instance remembers: the element it stands for, its component's
/// hook slots, and its children in the order in which they were added.
#[derive(Debug)]
pub struct Memory<C> {
    pub(crate) element: Element<C>,
    pub(crate) slots: Vec<Slot>,
    pub(crate) edges: Vec<Instance<C>>,
}

/// The record of one live element.
#[derive(Debug)]
pub struct Instance<C> {
    pub(crate) link: Link,
    pub(crate) container: ContainerID,
    pub(crate) level: usize,
    pub(crate) inherited: ContextFrame,
    pub(crate) context: ContextFrame,
    pub(crate) memory: Memory<C>,
}

/// The containers that the instances of `edges` own, each instance's
/// children before itself, and the instances in order.
pub open spec fn owned_by<C>(edges: Seq<Instance<C>>) -> Seq<ContainerID>
    decreases edges,
{
    if edges.len() == 0 {
        Seq::empty()
    } else {
        owned_by(edges.drop_last()) + edges.last().owned()
    }
}

impl<C> Instance<C> {
    /// The instance's identity.
    pub open(crate) spec fn id(&self) -> Link {
        self.link
    }

    /// The container that the instance targets: its own if it stands for a
    /// builtin, else the one of the nearest builtin above it.
    pub open(crate) spec fn target(&self) -> ContainerID {
        self.container
    }

    /// How many component instances stand above this one.
    pub open(crate) spec fn depth(&self) -> nat {
        self.level as nat
    }

    /// The value of the element that the instance stands for.
    pub open(crate) spec fn node(&self) -> Node<C> {
        self.memory.element@
    }

    /// The key under which the instance's parent holds it.
    pub open(crate) spec fn key(&self) -> Key {
        self.memory.element@.key()
    }

    /// The children, in the order in which they were added.
    pub open(crate) spec fn children(&self) -> Seq<Instance<C>> {
        self.memory.edges@
    }

    /// The hook slots.
    pub open(crate) spec fn slots(&self) -> Seq<Slot> {
        self.memory.slots@
    }

    /// The bindings that the instance got from above.
    pub open(crate) spec fn ambient(&self) -> Map<u64, u64> {
        self.inherited@
    }

    /// The bindings that the instance made itself.
    pub open(crate) spec fn bound(&self) -> Map<u64, u64> {
        self.context@
    }

    /// The bindings that the instance and everything below it see.
    pub open spec fn visible(&self) -> Map<u64, u64> {
        self.ambient().union_prefer_right(self.bound())
    }

    /// The `depth` of the instance's children.
    pub open spec fn below(&self) -> nat {
        if self.node() is Component {
            self.depth() + 1
        } else {
            self.depth()
        }
    }

    /// The containers that the instance and the instances below it own, in
    /// the order in which unmounting the instance removes them: children
    /// before their parent, siblings in order.
    pub open(crate) spec fn owned(&self) -> Seq<ContainerID>
        decreases self,
    {
        let below = owned_by(self.memory.edges@);
        if self.memory.element@ is Builtin {
            below.push(self.container)
        } else {
            below
        }
    }

    /// Whether the instance stands for a builtin, and so owns its
    /// container.
    pub open spec fn owns(&self) -> bool {
        self.node() is Builtin
    }

    /// Every instance of the tree targets a container with an id below
    /// `counter`.
    pub open(crate) spec fn bounded(&self, counter: nat) -> bool
        decreases self,
    {
        &&& self.container.0 < counter
        &&& forall|i: int|
            0 <= i < self.memory.edges@.len() ==> (#[trigger] self.memory.edges@[i]).bounded(counter)
    }

    /// Whether `child` targets what a child of this instance has to target:
    /// a container of its own if it stands for a builtin, else the
    /// container that this instance targets.
    pub open spec fn anchors(&self, child: &Instance<C>) -> bool {
        child.owns() || child.target() == self.target()
    }

    /// Whether `child` hangs rightly below this instance, its parent: one
    /// level further down where this instance is a component, seeing what
    /// this instance sees, and targeting this instance's container unless
    /// it owns one.
    pub open spec fn holds(&self, child: &Instance<C>) -> bool {
        &&& child.depth() == self.below()
        &&& child.ambient() == self.visible()
        &&& self.anchors(child)
    }

    /// Each child stands for one of `wanted`.
    #[verifier::opaque]
    pub open spec fn within(&self, wanted: Seq<Node<C>>) -> bool {
        forall|i: int|
            0 <= i < self.children().len() ==> exists|t: int|
                0 <= t < wanted.len() && wanted[t] == (#[trigger] self.children()[i]).node()
    }

    /// Each of `wanted` has its child.
    #[verifier::opaque]
    pub open spec fn covers(&self, wanted: Seq<Node<C>>) -> bool {
        forall|t: int|
            0 <= t < wanted.len() ==> exists|i: int|
                0 <= i < self.children().len() && (#[trigger] wanted[t]) == self.children()[i].node()
    }

    /// Whether the children are those that `wanted` asks for: each child
    /// stands for one of `wanted`, and each of `wanted` has its child.
    pub open spec fn realises(&self, wanted: Seq<Node<C>>) -> bool {
        self.within(wanted) && self.covers(wanted)
    }

    /// No two children share a key.
    pub open spec fn unambiguous(&self) -> bool {
        forall|i: int, j: int|
            #![trigger self.children()[i], self.children()[j]]
            0 <= i < j < self.children().len() ==> self.children()[i].key()
                != self.children()[j].key()
    }

    /// The elements that the instance's element asks to have rendered below
    /// it. For a component this is not known from the element: it is what
    /// the component rendered.
    pub open spec fn wanted(&self) -> Seq<Node<C>> {
        match self.node() {
            Node::Builtin { children, .. } => seq![*children],
            Node::Component { .. } => keys_and_nodes(self.children()),
            Node::Context { children, .. } => seq![*children],
            Node::Fragment { elements, .. } => elements,
            Node::String(_) => Seq::empty(),
        }
    }

    /// Whether the instance itself is as a finished pass leaves it: it
    /// stands for a renderable element and holds exactly the children that
    /// its element asks for, under keys of their own, each hanging rightly
    /// below it. A component holds the one child that it rendered; a
    /// context has bound its value, and no other instance binds anything.
    pub open spec fn aligned(&self) -> bool {
        &&& self.node().renderable()
        &&& forall|i: int|
            0 <= i < self.children().len() ==> self.holds(#[trigger] &self.children()[i])
        &&& self.unambiguous()
        &&& self.realises(self.wanted())
        &&& self.node() is Component ==> self.children().len() == 1
        &&& self.bound() == self.node().binds()
    }

    /// Whether `path` leads from the instance to an instance: each step
    /// of a path is the position of a child.
    pub open spec fn leads(&self, path: Seq<int>) -> bool
        decreases path.len(),
    {
        path.len() == 0 || (0 <= path[0] < self.children().len() && self.children()[path[0]].leads(
            path.drop_first(),
        ))
    }

    /// The instance that `path` leads to.
    pub open spec fn at(&self, path: Seq<int>) -> Instance<C>
        decreases path.len(),
    {
        if path.len() == 0 {
            *self
        } else {
            self.children()[path[0]].at(path.drop_first())
        }
    }

    /// Whether `link` names the instance or an instance below it.
    pub open(crate) spec fn has(&self, link: Link) -> bool
        decreases self,
    {
        self.link == link || exists|i: int|
            0 <= i < self.memory.edges@.len() && (#[trigger] self.memory.edges@[i]).has(link)
    }

    /// Whether the children stand for `wanted`, one for one and in order,
    /// as after a first render; where `next` is given, also whether each
    /// child that owns a container owns the one that a first render hands
    /// it when the next container gets the id `next`.
    pub open spec fn lined_up(&self, wanted: Seq<Node<C>>, next: Option<nat>) -> bool {
        &&& self.children().len() == wanted.len()
        &&& forall|u: int|
            0 <= u < wanted.len() ==> (#[trigger] self.children()[u]).node() == wanted[u]
        &&& next matches Some(first) ==> forall|u: int|
            0 <= u < wanted.len() && wanted[u] is Builtin ==> (#[trigger] self.children()[u]).target()
                == ContainerID((first + Node::builtins_of(wanted.take(u))) as usize)
    }

    /// Whether the children are already in line with `wanted`, and nothing
    /// of `wanted` runs a component: a pass over them has nothing to do.
    pub open spec fn idle(&self, wanted: Seq<Node<C>>) -> bool {
        &&& self.realises(wanted)
        &&& self.unambiguous()
        &&& forall|i: int|
            0 <= i < self.children().len() ==> self.holds(#[trigger] &self.children()[i])
        &&& forall|u: int| 0 <= u < wanted.len() ==> (#[trigger] wanted[u]).plain()
    }

    /// Whether the instance is the instance `before`, kept: of the same
    /// identity, under the same key, bound to the same container, and
    /// owning one if and only if `before` did.
    pub open spec fn continues(&self, before: Instance<C>) -> bool {
        &&& self.id() == before.id()
        &&& self.key() == before.key()
        &&& self.target() == before.target()
        &&& self.owns() == before.owns()
    }

    /// Whether the children `before` that are `asked` for are still there,
    /// each as itself, and in the order in which they stood.
    #[verifier::opaque]
    pub open spec fn keeps(
        &self,
        before: Seq<Instance<C>>,
        asked: spec_fn(Instance<C>) -> bool,
    ) -> bool {
        forall|a: int, b: int|
            #![trigger before[a], before[b]]
            0 <= a <= b < before.len() && asked(before[a]) && asked(before[b])
                ==> exists|j: int, k: int|
                #![trigger self.children()[j], self.children()[k]]
                0 <= j <= k < self.children().len() && (a < b ==> j < k)
                    && self.children()[j].continues(before[a]) && self.children()[k].continues(
                    before[b],
                )
    }

    /// Whether a pass can start at the instance: its element is renderable,
    /// the trees below it are as a finished pass left them, and each child
    /// targets its own container or the instance's.
    pub open spec fn prepared(&self) -> bool {
        &&& self.node().renderable()
        &&& forall|i: int|
            0 <= i < self.children().len() ==> (#[trigger] self.children()[i]).settled()
        &&& forall|i: int|
            0 <= i < self.children().len() ==> self.anchors(#[trigger] &self.children()[i])
    }

    /// Whether the instance is still the instance `before`: of the same
    /// identity, bound to the same container, at the same place in the
    /// tree, and standing for the same element.
    pub open spec fn same(&self, before: Instance<C>) -> bool {
        &&& self.id() == before.id()
        &&& self.target() == before.target()
        &&& self.depth() == before.depth()
        &&& self.ambient() == before.ambient()
        &&& self.node() == before.node()
    }

    /// Whether the whole tree is as a finished pass leaves it: the instance
    /// and every instance below it is `aligned`.
    pub open(crate) spec fn settled(&self) -> bool
        decreases self,
    {
        &&& self.aligned()
        &&& forall|i: int|
            0 <= i < self.memory.edges@.len() ==> (#[trigger] self.memory.edges@[i]).settled()
    }
}

impl<C> Memory<C> {
    /// The value of the remembered element.
    pub open(crate) spec fn node(&self) -> Node<C> {
        self.element@
    }

    /// The remembered hook slots.
    pub open(crate) spec fn slots(&self) -> Seq<Slot> {
        self.slots@
    }

    /// The remembered children.
    pub open(crate) spec fn children(&self) -> Seq<Instance<C>> {
        self.edges@
    }

    /// The memory of a new instance: the element, no slot and no child.
    pub fn new(element: Element<C>) -> (memory: Memory<C>)
        ensures
            memory.node() == element@,
            memory.slots() == Seq::<Slot>::empty(),
            memory.children() == Seq::<Instance<C>>::empty(),
    {
        Memory { element, slots: Vec::new(), edges: Vec::new() }
    }

    /// The element that the instance stands for.
    pub fn element(&self) -> (element: &Element<C>)
        ensures
            element@ == self.node(),
    {
        &self.element
    }

    /// Stores `element` in place of the current one, which is returned.
    pub fn update(&mut self, element: Element<C>) -> (previous: Element<C>)
        ensures
            final(self).node() == element@,
            previous@ == old(self).node(),
            final(self).slots() == old(self).slots(),
            final(self).children() == old(self).children(),
    {
        let mut element = element;
        core::mem::swap(&mut self.element, &mut element);
        element
    }

    /// The number of children.
    pub fn len(&self) -> (n: usize)
        ensures
            n == self.children().len(),
    {
        self.edges.len()
    }

    /// The position of the child that stands under `key`, if there is one:
    /// the first, should several have that key.
    pub fn position(&self, key: Key) -> (found: Option<usize>)
        requires
            forall|i: int|
                0 <= i < self.children().len() ==> !((#[trigger] self.children()[i]).node() is String),
        ensures
            found matches Some(i) ==> i < self.children().len() && self.children()[i as int].key()
                == key && forall|j: int| 0 <= j < i ==> (#[trigger] self.children()[j]).key() != key,
            found.is_none() ==> forall|j: int|
                0 <= j < self.children().len() ==> (#[trigger] self.children()[j]).key() != key,
    {
        let mut i: usize = 0;
        while i < self.edges.len()
            invariant
                i <= self.edges@.len(),
                forall|i: int|
                    0 <= i < self.edges@.len() ==> !((#[trigger] self.edges@[i]).node() is String),
                forall|j: int| 0 <= j < i ==> (#[trigger] self.edges@[j]).key() != key,
            decreases self.edges@.len() - i,
        {
            if self.edges[i].memory.element.key() == key {
                return Some(i);
            }
            i = i + 1;
        }
        None
    }

    /// Adds `instance` behind the children that are there.
    pub fn add_edge(&mut self, instance: Instance<C>)
        ensures
            final(self).children() == old(self).children().push(instance),
            final(self).node() == old(self).node(),
            final(self).slots() == old(self).slots(),
    {
        self.edges.push(instance);
    }
}

impl<C> Instance<C> {
    /// A new instance for `element`, without children, that targets
    /// `container`. Below a parent it stands one level further down where
    /// the parent is a component, and sees what the parent sees; without
    /// one it stands at the top and sees nothing.
    pub fn new(
        link: Link,
        parent: Option<&Instance<C>>,
        element: Element<C>,
        container: ContainerID,
    ) -> (instance: Instance<C>)
        requires
            parent matches Some(p) ==> p.below() <= usize::MAX,
        ensures
            instance.id() == link,
            instance.target() == container,
            instance.node() == element@,
            instance.children() == Seq::<Instance<C>>::empty(),
            instance.slots() == Seq::<Slot>::empty(),
            instance.bound() == Map::<u64, u64>::empty(),
            parent matches Some(p) ==> instance.depth() == p.below() && instance.ambient()
                == p.visible(),
            parent.is_none() ==> instance.depth() == 0 && instance.ambient() == Map::<
                u64,
                u64,
            >::empty(),
    {
        let (level, inherited) = match parent {
            Some(p) => {
                let level = if p.is_component() {
                    p.level + 1
                } else {
                    p.level
                };
                (level, p.inherited.enter(&p.context))
            },
            None => (0, ContextFrame::new()),
        };
        Instance {
            link,
            container,
            level,
            inherited,
            context: ContextFrame::new(),
            memory: Memory::new(element),
        }
    }

    /// The instance's identity.
    pub fn link(&self) -> (link: Link)
        ensures
            link == self.id(),
    {
        self.link
    }

    /// The container that the instance targets.
    pub fn container(&self) -> (container: ContainerID)
        ensures
            container == self.target(),
    {
        self.container
    }

    /// How many component instances stand above this one.
    pub fn level(&self) -> (level: usize)
        ensures
            level == self.depth(),
    {
        self.level
    }

    /// The element that the instance stands for.
    pub fn element(&self) -> (element: &Element<C>)
        ensures
            element@ == self.node(),
    {
        &self.memory.element
    }

    /// The children, in the order in which they were added.
    pub fn edges(&self) -> (edges: &Vec<Instance<C>>)
        ensures
            edges@ == self.children(),
    {
        &self.memory.edges
    }

    /// The hook slots.
    pub fn hooks(&self) -> (slots: &Vec<Slot>)
        ensures
            slots@ == self.slots(),
    {
        &self.memory.slots
    }

    /// The value that the instance and everything below it see for `kind`.
    pub fn context(&self, kind: u64) -> (value: Option<u64>)
        ensures
            value == (if self.visible().dom().contains(kind) {
                Some(self.visible()[kind])
            } else {
                None
            }),
    {
        match self.context.get(kind) {
            Some(value) => Some(value),
            None => self.inherited.get(kind),
        }
    }

    /// Whether the instance stands for a builtin.
    pub fn is_builtin(&self) -> (yes: bool)
        ensures
            yes == self.owns(),
    {
        match &self.memory.element {
            Element::Builtin { .. } => true,
            _ => false,
        }
    }

    /// Whether the instance stands for a component.
    pub fn is_component(&self) -> (yes: bool)
        ensures
            yes == (self.node() is Component),
    {
        match &self.memory.element {
            Element::Component { .. } => true,
            _ => false,
        }
    }

    /// Whether `link` names the instance or an instance below it.
    pub fn contains(&self, link: Link) -> (found: bool)
        ensures
            found == self.has(link),
        decreases self,
    {
        if self.link == link {
            return true;
        }
        let mut i: usize = 0;
        while i < self.memory.edges.len()
            invariant
                i <= self.memory.edges@.len(),
                self.link != link,
                forall|j: int| 0 <= j < i ==> !(#[trigger] self.memory.edges@[j]).has(link),
            decreases self.memory.edges@.len() - i,
        {
            if self.memory.edges[i].contains(link) {
                return true;
            }
            i = i + 1;
        }
        false
    }

    /// Puts `value` into the state slot at `slot`. An instance that has no
    /// state slot there is left as it is.
    pub fn store(&mut self, slot: usize, value: u64) -> (stored: bool)
        ensures
            stored == (slot < old(self).slots().len() && old(self).slots()[slot as int] is State),
            stored ==> final(self).slots() == old(self).slots().update(
                slot as int,
                Slot::State(value),
            ),
            !stored ==> final(self).slots() == old(self).slots(),
            final(self).same(*old(self)),
            final(self).bound() == old(self).bound(),
            final(self).children() == old(self).children(),
    {
        if slot < self.memory.slots.len() {
            match self.memory.slots[slot] {
                Slot::State(_) => {
                    self.memory.slots[slot] = Slot::State(value);
                    true
                },
                _ => false,
            }
        } else {
            false
        }
    }

    /// Stores `element` in place of the element that the instance stands
    /// for, and returns that one. An instance stays on the side on which it
    /// was made: an element that is a builtin where the instance owns no
    /// container, or is none where it owns one, is handed back and nothing
    /// changes. Nothing but the element changes in any case: the children
    /// are brought into line by the next pass over the instance.
    pub fn update(&mut self, element: Element<C>) -> (result: Result<Element<C>, Element<C>>)
        ensures
            result is Ok <==> (element@ is Builtin) == old(self).owns(),
            result matches Ok(previous) ==> final(self).node() == element@ && previous@ == old(self).node(),
            result matches Err(refused) ==> refused@ == element@ && final(self).node() == old(self).node(),
            final(self).owns() == old(self).owns(),
            final(self).id() == old(self).id(),
            final(self).target() == old(self).target(),
            final(self).depth() == old(self).depth(),
            final(self).ambient() == old(self).ambient(),
            final(self).bound() == old(self).bound(),
            final(self).slots() == old(self).slots(),
            final(self).children() == old(self).children(),
    {
        if self.is_builtin() != element.is_builtin() {
            return Err(element);
        }
        Ok(self.memory.update(element))
    }
}

impl<C> Instance<C> {
    /// Whether the tree is the tree `other`, instance for instance: each
    /// instance has the identity, the container, the place, the bindings,
    /// the element and the slots of the one it answers to, and as many
    /// children.
    pub open(crate) spec fn alike(&self, other: Instance<C>) -> bool
        decreases self,
    {
        &&& self.link == other.link
        &&& self.container == other.container
        &&& self.level == other.level
        &&& self.inherited@ == other.inherited@
        &&& self.context@ == other.context@
        &&& self.memory.element@ == other.memory.element@
        &&& self.memory.slots@ == other.memory.slots@
        &&& self.memory.edges@.len() == other.memory.edges@.len()
        &&& forall|i: int|
            0 <= i < self.memory.edges@.len() ==> (#[trigger] self.memory.edges@[i]).alike(
                other.memory.edges@[i],
            )
    }

    /// A tree is as itself.
    pub proof fn lemma_alike_self(&self)
        ensures
            self.alike(*self),
        decreases self,
    {
        assert forall|i: int| 0 <= i < self.memory.edges@.len() implies (
        #[trigger] self.memory.edges@[i]).alike(self.memory.edges@[i]) by {
            self.memory.edges@[i].lemma_alike_self();
        }
    }

    /// A tree that is as another tree owns what that tree owns, names the
    /// instances that it names, and is settled and bounded if it is.
    pub proof fn lemma_alike(&self, other: Instance<C>, counter: nat, link: Link)
        requires
            self.alike(other),
        ensures
            self.owned() == other.owned(),
            self.has(link) == other.has(link),
            other.bounded(counter) ==> self.bounded(counter),
            other.settled() ==> self.settled(),
        decreases self,
    {
        reveal_with_fuel(Instance::alike, 2);
        let mine = self.memory.edges@;
        let theirs = other.memory.edges@;
        assert forall|i: int| 0 <= i < mine.len() implies {
            &&& (#[trigger] mine[i]).same(theirs[i])
            &&& mine[i].owned() == theirs[i].owned()
            &&& mine[i].has(link) == theirs[i].has(link)
            &&& (theirs[i].bounded(counter) ==> mine[i].bounded(counter))
            &&& (theirs[i].settled() ==> mine[i].settled())
        } by {
            mine[i].lemma_alike(theirs[i], counter, link);
        }
        lemma_owned_by_alike(mine, theirs);
        if self.has(link) && self.link != link {
            let i = choose|i: int| 0 <= i < mine.len() && (#[trigger] mine[i]).has(link);
            assert(theirs[i].has(link));
        }
        if other.has(link) && other.link != link {
            let i = choose|i: int| 0 <= i < theirs.len() && (#[trigger] theirs[i]).has(link);
            assert(mine[i].has(link));
        }
        if other.bounded(counter) {
            assert forall|i: int| 0 <= i < mine.len() implies (#[trigger] mine[i]).bounded(
                counter,
            ) by {
                assert(theirs[i].bounded(counter));
            }
        }
        if other.settled() {
            assert forall|i: int| 0 <= i < mine.len() implies (#[trigger] mine[i]).settled()
                && self.holds(&mine[i]) by {
                assert(theirs[i].settled());
                assert(other.holds(&theirs[i]));
                assert(mine[i].same(theirs[i]));
            }
            assert(self.unambiguous()) by {
                assert forall|i: int, j: int|
                    #![trigger mine[i], mine[j]]
                    0 <= i < j < mine.len() implies mine[i].key() != mine[j].key() by {
                    assert(theirs[i].key() != theirs[j].key());
                    assert(mine[i].same(theirs[i]) && mine[j].same(theirs[j]));
                }
            }
            assert(keys_and_nodes(mine) =~= keys_and_nodes(theirs));
            assert(self.wanted() == other.wanted());
            self.lemma_realises_alike(other, other.wanted());
            assert(self.aligned());
        }
    }
}

impl<C: Copy> Instance<C> {
    /// A copy of the tree.
    pub fn duplicate(&self) -> (copy: Instance<C>)
        ensures
            copy.alike(*self),
        decreases self,
    {
        let mut edges: Vec<Instance<C>> = Vec::new();
        let mut i: usize = 0;
        while i < self.memory.edges.len()
            invariant
                i <= self.memory.edges@.len(),
                edges@.len() == i,
                forall|j: int| 0 <= j < i ==> (#[trigger] edges@[j]).alike(self.memory.edges@[j]),
            decreases self.memory.edges@.len() - i,
        {
            let child = self.memory.edges[i].duplicate();
            edges.push(child);
            i = i + 1;
        }
        let mut slots: Vec<Slot> = Vec::new();
        let mut k: usize = 0;
        while k < self.memory.slots.len()
            invariant
                k <= self.memory.slots@.len(),
                slots@ == self.memory.slots@.take(k as int),
            decreases self.memory.slots@.len() - k,
        {
            slots.push(self.memory.slots[k]);
            proof {
                assert(slots@ =~= self.memory.slots@.take(k + 1));
            }
            k = k + 1;
        }
        proof {
            assert(slots@ =~= self.memory.slots@);
        }
        Instance {
            link: self.link,
            container: self.container,
            level: self.level,
            inherited: self.inherited.duplicate(),
            context: self.context.duplicate(),
            memory: Memory { element: self.memory.element.duplicate(), slots, edges },
        }
    }
}

/// `owned_by` of a sequence with one more instance.
pub proof fn lemma_owned_by_push<C>(edges: Seq<Instance<C>>, last: Instance<C>)
    ensures
        owned_by(edges.push(last)) == owned_by(edges) + last.owned(),
{
    assert(edges.push(last).drop_last() =~= edges);
}

/// Instances that own the same, one for one, own the same together.
pub proof fn lemma_owned_by_alike<C>(a: Seq<Instance<C>>, b: Seq<Instance<C>>)
    requires
        a.len() == b.len(),
        forall|i: int| 0 <= i < a.len() ==> (#[trigger] a[i]).owned() == b[i].owned(),
    ensures
        owned_by(a) == owned_by(b),
    decreases a.len(),
{
    if a.len() > 0 {
        lemma_owned_by_alike(a.drop_last(), b.drop_last());
        assert(a.last().owned() == b.last().owned());
    }
}

/// What an instance owns is among what its siblings and it own.
pub proof fn lemma_owned_by_has<C>(edges: Seq<Instance<C>>, i: int, id: ContainerID)
    requires
        0 <= i < edges.len(),
        edges[i].owned().contains(id),
    ensures
        owned_by(edges).contains(id),
    decreases edges.len(),
{
    let rest = owned_by(edges.drop_last());
    let last = edges.last().owned();
    if i == edges.len() - 1 {
        let k = choose|k: int| 0 <= k < last.len() && last[k] == id;
        assert((rest + last)[rest.len() + k] == id);
    } else {
        lemma_owned_by_has(edges.drop_last(), i, id);
        let k = choose|k: int| 0 <= k < rest.len() && rest[k] == id;
        assert((rest + last)[k] == id);
    }
}

/// What a sequence of instances owns, one of them owns.
pub proof fn lemma_owned_by_whose<C>(edges: Seq<Instance<C>>, id: ContainerID) -> (i: int)
    requires
        owned_by(edges).contains(id),
    ensures
        0 <= i < edges.len(),
        edges[i].owned().contains(id),
    decreases edges.len(),
{
    if edges.len() == 0 {
        0
    } else {
        let rest = owned_by(edges.drop_last());
        let last = edges.last().owned();
        let k = choose|k: int| 0 <= k < (rest + last).len() && (rest + last)[k] == id;
        if k < rest.len() {
            assert(rest[k] == id);
            lemma_owned_by_whose(edges.drop_last(), id)
        } else {
            assert(last[k - rest.len()] == id);
            edges.len() - 1
        }
    }
}

/// Where, within what the instances `edges` own together, that begins
/// which the instance at `i` owns.
pub open spec fn offset_by<C>(edges: Seq<Instance<C>>, i: int) -> int {
    owned_by(edges.take(i)).len() as int
}

/// What one of a sequence of instances owns stands in one piece within what
/// they own together, from its `offset_by` on.
pub proof fn lemma_owned_by_piece<C>(edges: Seq<Instance<C>>, i: int, k: int)
    requires
        0 <= i < edges.len(),
        0 <= k < edges[i].owned().len(),
    ensures
        0 <= offset_by(edges, i) + k < owned_by(edges).len(),
        owned_by(edges)[offset_by(edges, i) + k] == edges[i].owned()[k],
    decreases edges.len(),
{
    let front = edges.drop_last();
    if i == edges.len() - 1 {
        assert(edges.take(i) =~= front);
    } else {
        lemma_owned_by_piece(front, i, k);
        assert(front.take(i) =~= edges.take(i));
        assert(front[i] == edges[i]);
    }
}

/// Replacing one instance of a sequence replaces what it owns.
pub proof fn lemma_owned_by_update<C>(
    edges: Seq<Instance<C>>,
    i: int,
    next: Instance<C>,
    id: ContainerID,
)
    requires
        0 <= i < edges.len(),
    ensures
        tally(owned_by(edges.update(i, next)), id) + tally(edges[i].owned(), id) == tally(
            owned_by(edges),
            id,
        ) + tally(next.owned(), id),
    decreases edges.len(),
{
    let updated = edges.update(i, next);
    let front = edges.drop_last();
    let rest = owned_by(front);
    let last = edges.last().owned();
    lemma_tally_concat(rest, last, id);
    if i == edges.len() - 1 {
        assert(updated.drop_last() =~= front);
        lemma_tally_concat(rest, next.owned(), id);
    } else {
        lemma_owned_by_update(front, i, next, id);
        assert(front[i] == edges[i]);
        assert(updated.drop_last() =~= front.update(i, next));
        assert(updated.last() == edges.last());
        lemma_tally_concat(owned_by(front.update(i, next)), last, id);
    }
}

impl<C> Instance<C> {
    /// Children that realise one element under keys of their own are one
    /// child.
    pub proof fn lemma_only(&self, node: Node<C>)
        requires
            self.realises(seq![node]),
            self.unambiguous(),
        ensures
            self.children().len() == 1,
            self.children()[0].node() == node,
            self.realises(keys_and_nodes(self.children())),
    {
        let wanted = seq![node];
        assert(self.children().len() >= 1) by {
            reveal(Instance::covers);
            assert(wanted[0] == node);
        }
        assert(self.children().len() <= 1 && self.children()[0].node() == node) by {
            reveal(Instance::within);
            let a = self.children()[0];
            assert(a.node() == node);
            if self.children().len() > 1 {
                let b = self.children()[1];
                assert(b.node() == node);
                assert(a.key() == b.key());
            }
        }
        let mine = keys_and_nodes(self.children());
        assert(mine[0] == self.children()[0].node());
        assert(self.within(mine)) by {
            reveal(Instance::within);
        }
        assert(self.covers(mine)) by {
            reveal(Instance::covers);
        }
    }

    /// Children that stand for the same elements as the children of
    /// `before`, one for one, realise what those realise.
    pub proof fn lemma_realises_alike(&self, before: Instance<C>, wanted: Seq<Node<C>>)
        requires
            before.realises(wanted),
            self.children().len() == before.children().len(),
            forall|j: int|
                0 <= j < self.children().len() ==> (#[trigger] self.children()[j]).node()
                    == before.children()[j].node(),
        ensures
            self.realises(wanted),
    {
        assert(self.within(wanted)) by {
            reveal(Instance::within);
            assert forall|i: int| 0 <= i < self.children().len() implies exists|t: int|
                0 <= t < wanted.len() && wanted[t] == (#[trigger] self.children()[i]).node() by {
                let t = choose|t: int|
                    0 <= t < wanted.len() && wanted[t] == before.children()[i].node();
                assert(wanted[t] == self.children()[i].node());
            }
        }
        assert(self.covers(wanted)) by {
            reveal(Instance::covers);
            assert forall|t: int| 0 <= t < wanted.len() implies exists|i: int|
                0 <= i < self.children().len() && (#[trigger] wanted[t]) == self.children()[i].node() by {
                let i = choose|i: int|
                    0 <= i < before.children().len() && wanted[t] == before.children()[i].node();
                assert(wanted[t] == self.children()[i].node());
            }
        }
    }

    /// An instance that is as the settled instance `before` in what it
    /// stands for, what it targets, where it hangs, what it has bound and
    /// what it holds, is settled.
    pub proof fn lemma_settled_alike(&self, before: Instance<C>)
        requires
            before.settled(),
            self.node() == before.node(),
            self.target() == before.target(),
            self.depth() == before.depth(),
            self.ambient() == before.ambient(),
            self.bound() == before.bound(),
            self.children() == before.children(),
        ensures
            self.settled(),
    {
        self.lemma_realises_alike(before, before.wanted());
        assert(self.wanted() == before.wanted());
        assert(self.aligned());
    }

    /// Below a settled instance that runs no component stand instances
    /// that run none, at the same depth.
    pub proof fn lemma_plain_below(&self, i: int)
        requires
            self.settled(),
            self.node().plain(),
            0 <= i < self.children().len(),
        ensures
            self.children()[i].node().plain(),
            self.children()[i].depth() == self.depth(),
    {
        reveal(Instance::within);
        self.node().lemma_edges();
        assert(self.holds(&self.children()[i]));
        assert(self.wanted() == self.node().edges());
        let t = choose|t: int|
            0 <= t < self.wanted().len() && self.wanted()[t] == self.children()[i].node();
        assert(self.node().edges()[t].plain());
    }

    /// An instance is settled once it is aligned and its children are
    /// settled.
    pub proof fn lemma_settled(&self)
        requires
            self.aligned(),
            forall|i: int| 0 <= i < self.children().len() ==> (#[trigger] self.children()[i]).settled(),
        ensures
            self.settled(),
    {
    }

    /// Where, within what the tree owns, that begins which the instance
    /// at the end of `path` owns.
    pub open spec fn offset(&self, path: Seq<int>) -> int
        decreases path.len(),
    {
        if path.len() == 0 {
            0
        } else {
            offset_by(self.children(), path[0]) + self.children()[path[0]].offset(
                path.drop_first(),
            )
        }
    }

    /// What an instance of the tree owns stands in one piece within what
    /// the tree owns, from its `offset` on; and what an instance below the
    /// root owns stands within what the children of the root own.
    pub proof fn lemma_owned_piece(&self, path: Seq<int>, k: int)
        requires
            self.leads(path),
            0 <= k < self.at(path).owned().len(),
        ensures
            0 <= self.offset(path),
            self.offset(path) + k < self.owned().len(),
            self.owned()[self.offset(path) + k] == self.at(path).owned()[k],
            path.len() > 0 ==> self.offset(path) + k < owned_by(self.children()).len(),
        decreases path.len(),
    {
        if path.len() > 0 {
            let child = self.children()[path[0]];
            child.lemma_owned_piece(path.drop_first(), k);
            lemma_owned_by_piece(self.children(), path[0], child.offset(path.drop_first()) + k);
        }
    }

    /// A bound on the targets of a tree is a bound on what the tree owns.
    pub proof fn lemma_bounded_owned(&self, counter: nat, id: ContainerID)
        requires
            self.bounded(counter),
            self.owned().contains(id),
        ensures
            id.0 < counter,
        decreases self,
    {
        let below = owned_by(self.memory.edges@);
        if below.contains(id) {
            let i = lemma_owned_by_whose(self.memory.edges@, id);
            self.memory.edges@[i].lemma_bounded_owned(counter, id);
        } else {
            let k = choose|k: int| 0 <= k < self.owned().len() && self.owned()[k] == id;
            if k < below.len() {
                assert(below[k] == id);
            }
        }
    }

    /// A bound stays a bound when the counter grows.
    pub proof fn lemma_bounded_grows(&self, counter: nat, later: nat)
        requires
            self.bounded(counter),
            counter <= later,
        ensures
            self.bounded(later),
        decreases self,
    {
        assert forall|i: int| 0 <= i < self.memory.edges@.len() implies (
        #[trigger] self.memory.edges@[i]).bounded(later) by {
            self.memory.edges@[i].lemma_bounded_grows(counter, later);
        }
    }
}

/// The slots `slots` after `store` was carried out on them: the value is
/// put into the state slot of that position, if there is a state slot.
pub open spec fn stored(slots: Seq<Slot>, store: Option<(usize, u64)>) -> Seq<Slot> {
    match store {
        Some((slot, value)) => if slot < slots.len() && slots[slot as int] is State {
            slots.update(slot as int, Slot::State(value))
        } else {
            slots
        },
        None => slots,
    }
}

/// The values of the elements of `edges`, in order.
pub open spec fn keys_and_nodes<C>(edges: Seq<Instance<C>>) -> Seq<Node<C>> {
    Seq::new(edges.len(), |i: int| edges[i].node())
}

} // verus!
