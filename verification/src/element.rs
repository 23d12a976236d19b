//! Elements: plain values that describe the interface that should exist.

use crate::builtin::Builtin;
use crate::compositor::{ContainerID, Operation};
use crate::context::ContextValue;
use crate::key::Key;
use crate::reference::Reference;
use vstd::prelude::*;

verus! {

/// One node of a description. `C` is the type of the components that the
/// description may name.
#[derive(Debug)]
pub enum Element<C> {
    /// Asks for a native container of its own, with `children` inside it.
    /// Where `reference` is given, the cell receives the container's id when
    /// the container is mounted.
    Builtin { key: Key, builtin: Builtin, children: Box<Element<C>>, reference: Option<Reference> },
    /// Stands for whatever `component` renders. `children` is handed to the
    /// component; it is not rendered unless the component returns it.
    Component { key: Key, component: C, children: Box<Element<C>> },
    /// Binds `value` for everything below.
    Context { key: Key, value: ContextValue, children: Box<Element<C>> },
    /// A list of siblings.
    Fragment { key: Key, elements: Vec<Element<C>> },
    /// Text. It is a value for components to read and cannot be rendered.
    String(String),
}

/// The mathematical value of an [`Element`].
pub enum Node<C> {
    Builtin { key: Key, builtin: Builtin, children: Box<Node<C>>, reference: Option<Reference> },
    Component { key: Key, component: C, children: Box<Node<C>> },
    Context { key: Key, value: ContextValue, children: Box<Node<C>> },
    Fragment { key: Key, elements: Seq<Node<C>> },
    String(Seq<char>),
}

impl<C> Node<C> {
    /// The node's key. Text has none; for it this is the key of the first
    /// position.
    pub open spec fn key(self) -> Key {
        match self {
            Node::Builtin { key, .. } => key,
            Node::Component { key, .. } => key,
            Node::Context { key, .. } => key,
            Node::Fragment { key, .. } => key,
            Node::String(_) => Key::Position(0),
        }
    }

    /// What an instance that stands for the node binds itself: the value
    /// of a context, and nothing for any other node.
    pub open spec fn binds(self) -> Map<u64, u64> {
        match self {
            Node::Context { value, .. } => Map::empty().insert(value.kind, value.value),
            _ => Map::empty(),
        }
    }

    /// No two of `nodes` share a key.
    pub open spec fn distinct(nodes: Seq<Node<C>>) -> bool {
        forall|i: int, j: int|
            #![trigger nodes[i], nodes[j]]
            0 <= i < j < nodes.len() ==> nodes[i].key() != nodes[j].key()
    }

    /// Whether the node can be rendered: no text stands where an instance
    /// would have to be made for it, and the siblings of every fragment have
    /// keys of their own. What a component is handed as its children is not
    /// looked at: it is rendered only if the component returns it.
    pub open spec fn renderable(self) -> bool
        decreases self,
    {
        match self {
            Node::Builtin { children, .. } => children.renderable(),
            Node::Component { .. } => true,
            Node::Context { children, .. } => children.renderable(),
            Node::Fragment { elements, .. } => {
                &&& forall|i: int| 0 <= i < elements.len() ==> (#[trigger] elements[i]).renderable()
                &&& Self::distinct(elements)
            },
            Node::String(_) => false,
        }
    }

    /// Whether rendering the node runs no component.
    pub open spec fn plain(self) -> bool
        decreases self,
    {
        match self {
            Node::Builtin { children, .. } => children.plain(),
            Node::Component { .. } => false,
            Node::Context { children, .. } => children.plain(),
            Node::Fragment { elements, .. } => forall|i: int|
                0 <= i < elements.len() ==> (#[trigger] elements[i]).plain(),
            Node::String(_) => true,
        }
    }

    /// How many containers rendering the node mounts before any component
    /// has run.
    pub open spec fn builtins(self) -> nat
        decreases self,
    {
        match self {
            Node::Builtin { children, .. } => 1 + children.builtins(),
            Node::Component { .. } => 0,
            Node::Context { children, .. } => children.builtins(),
            Node::Fragment { elements, .. } => Self::builtins_of(elements),
            Node::String(_) => 0,
        }
    }

    /// The sum of `builtins` over `nodes`.
    pub open spec fn builtins_of(nodes: Seq<Node<C>>) -> nat
        decreases nodes,
    {
        if nodes.len() == 0 {
            0
        } else {
            Self::builtins_of(nodes.drop_last()) + nodes.last().builtins()
        }
    }

    /// How many instances rendering the node makes before any component
    /// has run.
    pub open spec fn instances(self) -> nat
        decreases self,
    {
        match self {
            Node::Builtin { children, .. } => 1 + children.instances(),
            Node::Component { .. } => 1,
            Node::Context { children, .. } => 1 + children.instances(),
            Node::Fragment { elements, .. } => 1 + Self::instances_of(elements),
            Node::String(_) => 0,
        }
    }

    /// The sum of `instances` over `nodes`.
    pub open spec fn instances_of(nodes: Seq<Node<C>>) -> nat
        decreases nodes,
    {
        if nodes.len() == 0 {
            0
        } else {
            Self::instances_of(nodes.drop_last()) + nodes.last().instances()
        }
    }

    /// The operations that rendering the node for the first time records,
    /// as far as the node says, when the node is rendered into `parent` and
    /// the next container gets the id `next`: each builtin is mounted into
    /// the container of the nearest builtin above it, before what stands
    /// below it, and siblings in order.
    pub open spec fn script(self, parent: ContainerID, next: nat) -> Seq<Operation>
        decreases self,
    {
        match self {
            Node::Builtin { builtin, children, .. } => seq![
                Operation::Mount(ContainerID(next as usize), parent, builtin),
            ] + children.script(ContainerID(next as usize), next + 1),
            Node::Component { .. } => Seq::empty(),
            Node::Context { children, .. } => children.script(parent, next),
            Node::Fragment { elements, .. } => Self::script_of(elements, parent, next),
            Node::String(_) => Seq::empty(),
        }
    }

    /// The scripts of `nodes`, one after the other.
    pub open spec fn script_of(nodes: Seq<Node<C>>, parent: ContainerID, next: nat) -> Seq<
        Operation,
    >
        decreases nodes,
    {
        if nodes.len() == 0 {
            Seq::empty()
        } else {
            Self::script_of(nodes.drop_last(), parent, next) + nodes.last().script(
                parent,
                next + Self::builtins_of(nodes.drop_last()),
            )
        }
    }

    /// The containers that the instances of a first render of the node own,
    /// as far as the node says, when the next container gets the id `next`:
    /// in the order in which taking the tree down unmounts them, children
    /// before their parent and siblings in order.
    pub open spec fn holdings(self, next: nat) -> Seq<ContainerID>
        decreases self,
    {
        match self {
            Node::Builtin { children, .. } => children.holdings(next + 1).push(
                ContainerID(next as usize),
            ),
            Node::Component { .. } => Seq::empty(),
            Node::Context { children, .. } => children.holdings(next),
            Node::Fragment { elements, .. } => Self::holdings_of(elements, next),
            Node::String(_) => Seq::empty(),
        }
    }

    /// The holdings of `nodes`, one after the other.
    pub open spec fn holdings_of(nodes: Seq<Node<C>>, next: nat) -> Seq<ContainerID>
        decreases nodes,
    {
        if nodes.len() == 0 {
            Seq::empty()
        } else {
            Self::holdings_of(nodes.drop_last(), next) + nodes.last().holdings(
                next + Self::builtins_of(nodes.drop_last()),
            )
        }
    }

    /// The holdings of one node alone, and of the first `k + 1` of `nodes`.
    pub proof fn lemma_holdings(nodes: Seq<Node<C>>, k: int, next: nat)
        requires
            0 <= k < nodes.len(),
        ensures
            Self::holdings_of(seq![nodes[k]], next) == nodes[k].holdings(next),
            Self::holdings_of(nodes.take(k + 1), next) == Self::holdings_of(nodes.take(k), next)
                + nodes[k].holdings(next + Self::builtins_of(nodes.take(k))),
    {
        let one = seq![nodes[k]];
        assert(one.drop_last() =~= Seq::<Node<C>>::empty());
        assert(one.last() == nodes[k]);
        assert(Self::holdings_of(one.drop_last(), next) =~= Seq::<ContainerID>::empty());
        assert(Self::builtins_of(one.drop_last()) == 0);
        assert(Seq::<ContainerID>::empty() + nodes[k].holdings(next) =~= nodes[k].holdings(next));
        assert(nodes.take(k + 1).drop_last() =~= nodes.take(k));
        assert(nodes.take(k + 1).last() == nodes[k]);
    }

    /// The reference cells as a first render of the node leaves them, as far
    /// as the node says, when they were `cells` and the next container gets
    /// the id `next`: the cell of each builtin that carries a handle holds
    /// the id of that builtin's container, and where several builtins carry
    /// one handle, the id of the last of them in the order of the mounts. A
    /// handle that names no cell changes nothing.
    pub open spec fn inscribed(self, cells: Seq<Option<ContainerID>>, next: nat) -> Seq<
        Option<ContainerID>,
    >
        decreases self,
    {
        match self {
            Node::Builtin { children, reference, .. } => {
                let written = match reference {
                    Some(cell) => if cell.0 < cells.len() {
                        cells.update(cell.0 as int, Some(ContainerID(next as usize)))
                    } else {
                        cells
                    },
                    None => cells,
                };
                children.inscribed(written, next + 1)
            },
            Node::Component { .. } => cells,
            Node::Context { children, .. } => children.inscribed(cells, next),
            Node::Fragment { elements, .. } => Self::inscribed_of(elements, cells, next),
            Node::String(_) => cells,
        }
    }

    /// The cells as the first renders of `nodes`, one after the other, leave
    /// them.
    pub open spec fn inscribed_of(
        nodes: Seq<Node<C>>,
        cells: Seq<Option<ContainerID>>,
        next: nat,
    ) -> Seq<Option<ContainerID>>
        decreases nodes,
    {
        if nodes.len() == 0 {
            cells
        } else {
            nodes.last().inscribed(
                Self::inscribed_of(nodes.drop_last(), cells, next),
                next + Self::builtins_of(nodes.drop_last()),
            )
        }
    }

    /// The cells after one node alone, and after the first `k + 1` of
    /// `nodes`.
    pub proof fn lemma_inscribed(
        nodes: Seq<Node<C>>,
        k: int,
        cells: Seq<Option<ContainerID>>,
        next: nat,
    )
        requires
            0 <= k < nodes.len(),
        ensures
            Self::inscribed_of(seq![nodes[k]], cells, next) == nodes[k].inscribed(cells, next),
            Self::inscribed_of(nodes.take(k + 1), cells, next) == nodes[k].inscribed(
                Self::inscribed_of(nodes.take(k), cells, next),
                next + Self::builtins_of(nodes.take(k)),
            ),
    {
        let one = seq![nodes[k]];
        assert(one.drop_last() =~= Seq::<Node<C>>::empty());
        assert(one.last() == nodes[k]);
        assert(Self::builtins_of(one.drop_last()) == 0);
        assert(Self::inscribed_of(one.drop_last(), cells, next) == cells);
        assert(nodes.take(k + 1).drop_last() =~= nodes.take(k));
        assert(nodes.take(k + 1).last() == nodes[k]);
    }

    /// What rendering one node alone takes, and how it leaves the cells.
    pub proof fn lemma_one(node: Node<C>, cells: Seq<Option<ContainerID>>, next: nat)
        ensures
            Self::builtins_of(seq![node]) == node.builtins(),
            Self::instances_of(seq![node]) == node.instances(),
            Self::inscribed_of(seq![node], cells, next) == node.inscribed(cells, next),
    {
        let one = seq![node];
        assert(one.drop_last() =~= Seq::<Node<C>>::empty());
        assert(one.last() == node);
        assert(Self::builtins_of(one.drop_last()) == 0);
        assert(Self::instances_of(one.drop_last()) == 0);
        assert(Self::inscribed_of(one.drop_last(), cells, next) == cells);
    }

    /// The holdings of one node alone.
    pub proof fn lemma_holdings_one(node: Node<C>, next: nat)
        ensures
            Self::holdings_of(seq![node], next) == node.holdings(next),
    {
        let one = seq![node];
        assert(one.drop_last() =~= Seq::<Node<C>>::empty());
        assert(one.last() == node);
        assert(Self::holdings_of(one.drop_last(), next) =~= Seq::<ContainerID>::empty());
        assert(Self::builtins_of(one.drop_last()) == 0);
        assert(Seq::<ContainerID>::empty() + node.holdings(next) =~= node.holdings(next));
    }

    /// The script of one node alone.
    pub proof fn lemma_script_one(node: Node<C>, parent: ContainerID, next: nat)
        ensures
            Self::script_of(seq![node], parent, next) == node.script(parent, next),
    {
        let one = seq![node];
        assert(one.drop_last() =~= Seq::<Node<C>>::empty());
        assert(one.last() == node);
        assert(Self::script_of(one.drop_last(), parent, next) =~= Seq::<Operation>::empty());
        assert(Self::builtins_of(one.drop_last()) == 0);
        assert(Seq::<Operation>::empty() + node.script(parent, next) =~= node.script(parent, next));
    }

    /// The script of the first `k + 1` of `nodes`.
    pub proof fn lemma_script_take(nodes: Seq<Node<C>>, k: int, parent: ContainerID, next: nat)
        requires
            0 <= k < nodes.len(),
        ensures
            Self::script_of(nodes.take(k + 1), parent, next) == Self::script_of(
                nodes.take(k),
                parent,
                next,
            ) + nodes[k].script(parent, next + Self::builtins_of(nodes.take(k))),
    {
        assert(nodes.take(k + 1).drop_last() =~= nodes.take(k));
        assert(nodes.take(k + 1).last() == nodes[k]);
    }

    /// The elements that the node asks to have rendered below it, as far as
    /// the node says: a component's are not known before it has run.
    pub open spec fn edges(self) -> Seq<Node<C>> {
        match self {
            Node::Builtin { children, .. } => seq![*children],
            Node::Component { .. } => Seq::empty(),
            Node::Context { children, .. } => seq![*children],
            Node::Fragment { elements, .. } => elements,
            Node::String(_) => Seq::empty(),
        }
    }

    /// What rendering a node takes is what rendering its edges takes, and
    /// an instance, and for a builtin a container.
    pub proof fn lemma_edges(self)
        requires
            !(self is String),
        ensures
            self.builtins() == Self::builtins_of(self.edges()) + (if self is Builtin {
                1nat
            } else {
                0nat
            }),
            self.instances() == Self::instances_of(self.edges()) + 1,
            Self::tallest(self.edges()) < self.height(),
            self.plain() ==> forall|i: int|
                0 <= i < self.edges().len() ==> (#[trigger] self.edges()[i]).plain(),
    {
        match self {
            Node::Builtin { children, .. } => {
                assert(self.edges().drop_last() =~= Seq::<Node<C>>::empty());
                assert(self.edges().last() == *children);
                assert(Self::builtins_of(self.edges().drop_last()) == 0);
                assert(Self::instances_of(self.edges().drop_last()) == 0);
                assert(Self::tallest(self.edges().drop_last()) == 0);
            },
            Node::Context { children, .. } => {
                assert(self.edges().drop_last() =~= Seq::<Node<C>>::empty());
                assert(self.edges().last() == *children);
                assert(Self::builtins_of(self.edges().drop_last()) == 0);
                assert(Self::instances_of(self.edges().drop_last()) == 0);
                assert(Self::tallest(self.edges().drop_last()) == 0);
            },
            _ => {},
        }
    }

    /// What rendering the first `k + 1` of `nodes` takes is what rendering
    /// the first `k` takes and what rendering the next takes; and rendering
    /// some takes no more than rendering all.
    pub proof fn lemma_take(nodes: Seq<Node<C>>, k: int)
        requires
            0 <= k <= nodes.len(),
        ensures
            Self::builtins_of(nodes.take(k)) <= Self::builtins_of(nodes),
            Self::instances_of(nodes.take(k)) <= Self::instances_of(nodes),
            k < nodes.len() ==> Self::builtins_of(nodes.take(k + 1)) == Self::builtins_of(
                nodes.take(k),
            ) + nodes[k].builtins(),
            k < nodes.len() ==> Self::instances_of(nodes.take(k + 1)) == Self::instances_of(
                nodes.take(k),
            ) + nodes[k].instances(),
        decreases nodes.len() - k,
    {
        if k < nodes.len() {
            assert(nodes.take(k + 1).drop_last() =~= nodes.take(k));
            assert(nodes.take(k + 1).last() == nodes[k]);
            Self::lemma_take(nodes, k + 1);
        } else {
            assert(nodes.take(k) =~= nodes);
        }
    }

    /// A bound on how deep rendering the node recurses before it reaches a
    /// component or a leaf.
    pub open spec fn height(self) -> nat
        decreases self,
    {
        match self {
            Node::Builtin { children, .. } => children.height() + 2,
            Node::Component { .. } => 1,
            Node::Context { children, .. } => children.height() + 2,
            Node::Fragment { elements, .. } => Self::tallest(elements) + 1,
            Node::String(_) => 1,
        }
    }

    /// One more than the greatest `height` among `nodes`; 0 for none.
    pub open spec fn tallest(nodes: Seq<Node<C>>) -> nat
        decreases nodes,
    {
        if nodes.len() == 0 {
            0
        } else {
            let rest = Self::tallest(nodes.drop_last());
            let last = nodes.last().height() + 1;
            if last > rest {
                last
            } else {
                rest
            }
        }
    }

    /// Every one of `nodes` is lower than `tallest(nodes)`.
    pub proof fn lemma_tallest(nodes: Seq<Node<C>>, i: int)
        requires
            0 <= i < nodes.len(),
        ensures
            nodes[i].height() < Self::tallest(nodes),
        decreases nodes.len(),
    {
        if i < nodes.len() - 1 {
            Self::lemma_tallest(nodes.drop_last(), i);
        }
    }
}

/// The values of a sequence of elements.
pub open spec fn nodes<C>(elements: Seq<Element<C>>) -> Seq<Node<C>> {
    Seq::new(elements.len(), |i: int| elements[i]@)
}

impl<C> Element<C> {
    /// The value of the element.
    pub open spec fn model(&self) -> Node<C>
        decreases self,
    {
        match self {
            Element::Builtin { key, builtin, children, reference } => Node::Builtin {
                key: *key,
                builtin: *builtin,
                children: Box::new((**children).model()),
                reference: *reference,
            },
            Element::Component { key, component, children } => Node::Component {
                key: *key,
                component: *component,
                children: Box::new((**children).model()),
            },
            Element::Context { key, value, children } => Node::Context {
                key: *key,
                value: *value,
                children: Box::new((**children).model()),
            },
            Element::Fragment { key, elements } => Node::Fragment {
                key: *key,
                elements: Seq::new(
                    elements@.len(),
                    |i: int|
                        if 0 <= i < elements@.len() {
                            elements@[i].model()
                        } else {
                            arbitrary()
                        },
                ),
            },
            Element::String(text) => Node::String(text@),
        }
    }
}

impl<C> View for Element<C> {
    type V = Node<C>;

    /// The value of the element.
    open spec fn view(&self) -> Node<C> {
        self.model()
    }
}

/// The value of a fragment lists the values of its elements.
pub proof fn lemma_fragment<C>(element: &Element<C>)
    requires
        element is Fragment,
    ensures
        element@ is Fragment,
        element@->Fragment_key == element->Fragment_key,
        element@->Fragment_elements == nodes(element->Fragment_elements@),
{
    assert(element@->Fragment_elements =~= nodes(element->Fragment_elements@));
}

impl<C> Element<C> {
    /// An element that stands for what `component` renders.
    pub fn new(key: Key, component: C, children: Element<C>) -> (element: Element<C>)
        ensures
            element@ == (Node::Component { key, component, children: Box::new(children@) }),
    {
        Element::Component { key, component, children: Box::new(children) }
    }

    /// An element that asks for a container made from `builtin`.
    pub fn builtin(
        key: Key,
        builtin: Builtin,
        children: Element<C>,
        reference: Option<Reference>,
    ) -> (element: Element<C>)
        ensures
            element@ == (Node::Builtin { key, builtin, children: Box::new(children@), reference }),
    {
        Element::Builtin { key, builtin, children: Box::new(children), reference }
    }

    /// An element that binds `value` for `children`.
    pub fn context(key: Key, value: ContextValue, children: Element<C>) -> (element: Element<C>)
        ensures
            element@ == (Node::Context { key, value, children: Box::new(children@) }),
    {
        Element::Context { key, value, children: Box::new(children) }
    }

    /// A fragment without elements.
    pub fn empty() -> (element: Element<C>)
        ensures
            element@ == (Node::Fragment { key: Key::Named(0), elements: Seq::<Node<C>>::empty() }),
    {
        let element = Element::Fragment { key: Key::Named(0), elements: Vec::new() };
        proof {
            lemma_fragment(&element);
            assert(nodes(element->Fragment_elements@) =~= Seq::<Node<C>>::empty());
        }
        element
    }

    /// A fragment of `elements`.
    pub fn fragment(key: Key, elements: Vec<Element<C>>) -> (element: Element<C>)
        ensures
            element@ == (Node::Fragment { key, elements: nodes(elements@) }),
    {
        let element = Element::Fragment { key, elements };
        proof {
            lemma_fragment(&element);
        }
        element
    }

    /// A text element.
    pub fn string(value: &str) -> (element: Element<C>)
        ensures
            element@ == Node::<C>::String(value@),
    {
        Element::String(value.to_string())
    }

    /// Whether the element is text.
    pub fn is_string(&self) -> (text: bool)
        ensures
            text == (self@ is String),
    {
        match self {
            Element::String(_) => true,
            _ => false,
        }
    }

    /// Whether the element asks for a container of its own.
    pub fn is_builtin(&self) -> (builtin: bool)
        ensures
            builtin == (self@ is Builtin),
    {
        match self {
            Element::Builtin { .. } => true,
            _ => false,
        }
    }

    /// The element's key. Text has no key.
    pub fn key(&self) -> (key: Key)
        requires
            !(self@ is String),
        ensures
            key == self@.key(),
    {
        match self {
            Element::Builtin { key, .. } => *key,
            Element::Component { key, .. } => *key,
            Element::Context { key, .. } => *key,
            Element::Fragment { key, .. } => *key,
            Element::String(_) => Key::Position(0),
        }
    }

    /// The element at `index` of a fragment; `None` for another element or
    /// an index past the end.
    pub fn at(&self, index: usize) -> (element: Option<&Element<C>>)
        ensures
            element.is_some() <==> self@ is Fragment && index < self@->Fragment_elements.len(),
            element.is_some() ==> element.unwrap()@ == self@->Fragment_elements[index as int],
    {
        match self {
            Element::Fragment { elements, .. } => {
                proof {
                    lemma_fragment(self);
                }
                if index < elements.len() {
                    Some(&elements[index])
                } else {
                    None
                }
            },
            _ => None,
        }
    }

    /// Whether the element can be rendered.
    pub fn is_renderable(&self) -> (ok: bool)
        ensures
            ok == self@.renderable(),
        decreases self,
    {
        match self {
            Element::Builtin { children, .. } => children.is_renderable(),
            Element::Component { .. } => true,
            Element::Context { children, .. } => children.is_renderable(),
            Element::Fragment { elements, .. } => {
                proof {
                    lemma_fragment(self);
                }
                let ghost all = nodes(elements@);
                let n = elements.len();
                let mut i: usize = 0;
                while i < n
                    invariant
                        i <= n,
                        n == elements@.len(),
                        self is Fragment,
                        self->Fragment_elements == *elements,
                        all == nodes(elements@),
                        self@ is Fragment,
                        self@->Fragment_elements == all,
                        forall|k: int| 0 <= k < i ==> (#[trigger] all[k]).renderable(),
                    decreases n - i,
                {
                    if !elements[i].is_renderable() {
                        assert(!all[i as int].renderable());
                        return false;
                    }
                    i = i + 1;
                }
                let mut a: usize = 0;
                while a < n
                    invariant
                        a <= n,
                        n == elements@.len(),
                        all == nodes(elements@),
                        self@ is Fragment,
                        self@->Fragment_elements == all,
                        forall|k: int| 0 <= k < n ==> (#[trigger] all[k]).renderable(),
                        forall|x: int, y: int|
                            #![trigger all[x], all[y]]
                            0 <= x < a && x < y < n ==> all[x].key() != all[y].key(),
                    decreases n - a,
                {
                    let first = elements[a].key();
                    let mut b: usize = a + 1;
                    while b < n
                        invariant
                            a < b <= n,
                            n == elements@.len(),
                            all == nodes(elements@),
                            self@ is Fragment,
                            self@->Fragment_elements == all,
                            first == all[a as int].key(),
                            forall|k: int| 0 <= k < n ==> (#[trigger] all[k]).renderable(),
                            forall|y: int| a < y < b ==> all[a as int].key() != (#[trigger] all[y]).key(),
                        decreases n - b,
                    {
                        if elements[b].key() == first {
                            assert(all[a as int].key() == all[b as int].key());
                            return false;
                        }
                        b = b + 1;
                    }
                    a = a + 1;
                }
                true
            },
            Element::String(_) => false,
        }
    }
}

impl<C: Copy> Element<C> {
    /// A copy of the element, equal to it in value.
    pub fn duplicate(&self) -> (copy: Element<C>)
        ensures
            copy@ == self@,
        decreases self,
    {
        match self {
            Element::Builtin { key, builtin, children, reference } => Element::Builtin {
                key: *key,
                builtin: *builtin,
                children: Box::new(children.duplicate()),
                reference: *reference,
            },
            Element::Component { key, component, children } => Element::Component {
                key: *key,
                component: *component,
                children: Box::new(children.duplicate()),
            },
            Element::Context { key, value, children } => Element::Context {
                key: *key,
                value: *value,
                children: Box::new(children.duplicate()),
            },
            Element::Fragment { key, elements } => {
                let mut out: Vec<Element<C>> = Vec::new();
                let mut i: usize = 0;
                while i < elements.len()
                    invariant
                        i <= elements@.len(),
                        out@.len() == i,
                        self is Fragment,
                        self->Fragment_elements == *elements,
                        forall|j: int| 0 <= j < i ==> out@[j]@ == elements@[j]@,
                    decreases elements@.len() - i,
                {
                    let element = elements[i].duplicate();
                    out.push(element);
                    i = i + 1;
                }
                let copy = Element::Fragment { key: *key, elements: out };
                proof {
                    lemma_fragment(self);
                    lemma_fragment(&copy);
                    assert(nodes(copy->Fragment_elements@) =~= nodes(elements@));
                }
                copy
            },
            Element::String(text) => Element::String(text.clone()),
        }
    }
}

} // verus!
