//! The render pass: aligning a tree of instances with the elements it is
//! given, and recording what that takes.

use crate::builtin::{Builtin, Mutator};
use crate::bus::{Bus, Task};
use crate::compositor::{
    fresh, lemma_mounted_concat, lemma_unmounted_concat, mounted, tally, unmounted, CommandBuffer,
    Compositor, ContainerID, Operation,
};
use crate::context::{ContextFrame, ContextValue};
use crate::element::{lemma_fragment, nodes, Element, Node};
use crate::instance::{
    lemma_owned_by_has, lemma_owned_by_push, lemma_owned_by_update, lemma_owned_by_whose, owned_by,
    Instance, Link,
};
use crate::key::Key;
use crate::ledger::{
    accounts, kept, lemma_kept_rank, lemma_accounts_append, lemma_accounts_nothing, lemma_accounts_replace,
    lemma_accounts_sweep, lemma_kept_distinct, lemma_kept_from, lemma_kept_has, lemma_kept_owned,
    lemma_released_whose, lemma_removals, lemma_removals_concat, released, removals,
};
use crate::manager::{Component, Effect, Manager, Rendered};
use crate::reference::{Cells, Reference};
use vstd::prelude::*;

verus! {

/// Why a pass stopped. A pass that stops leaves its tree as far as it got;
/// the tree is not to be rendered again.
#[derive(Clone, Copy, Debug, PartialEq, Eq, Hash, Structural)]
pub enum RenderError {
    /// An element cannot be rendered: text stands where an instance would
    /// have to be made for it, or two siblings share a key.
    Invalid,
    /// Components are nested deeper than the renderer allows.
    Depth,
    /// The container ids or the instance identities are used up.
    Exhausted,
    /// A component did not call its hooks in the order of its earlier
    /// renders.
    Hooks,
}

/// The containers that `targets` name in `cells`, in order. A handle whose
/// cell is empty, or that names no cell, contributes nothing.
pub open spec fn resolved(targets: Seq<Reference>, cells: Seq<Option<ContainerID>>) -> Seq<
    ContainerID,
>
    decreases targets.len(),
{
    if targets.len() == 0 {
        Seq::empty()
    } else {
        let rest = resolved(targets.drop_last(), cells);
        let last = targets.last();
        if last.0 < cells.len() && cells[last.0 as int].is_some() {
            rest.push(cells[last.0 as int].unwrap())
        } else {
            rest
        }
    }
}

/// Owns what outlasts a pass: the compositor, the bus, the reference cells,
/// the identities handed out to instances, and the limit on the nesting of
/// components.
pub struct Renderer {
    pub(crate) compositor: Compositor,
    pub(crate) bus: Bus,
    pub(crate) cells: Cells,
    pub(crate) links: u64,
    pub(crate) depth: usize,
}

impl Renderer {
    /// The id that the next container gets.
    pub open(crate) spec fn counter(&self) -> nat {
        self.compositor.counter()
    }

    /// The committed buffers that the host has not taken, oldest first.
    pub open(crate) spec fn pending(&self) -> Seq<Seq<Operation>> {
        self.compositor.pending()
    }

    /// The tasks that wait on the bus.
    pub open(crate) spec fn queued(&self) -> Seq<Task> {
        self.bus@
    }

    /// The reference cells.
    pub open(crate) spec fn references(&self) -> Seq<Option<ContainerID>> {
        self.cells@
    }

    /// The identity that the next instance gets.
    pub open(crate) spec fn identities(&self) -> nat {
        self.links as nat
    }

    /// How many components may be nested.
    pub open(crate) spec fn limit(&self) -> nat {
        self.depth as nat
    }
}

/// The operations that running `effects` records, the first first, against
/// the reference cells `cells`: each effect is one change to the containers
/// that its targets name.
pub open spec fn mutations(
    effects: Seq<(Seq<Reference>, Mutator)>,
    cells: Seq<Option<ContainerID>>,
) -> Seq<Operation> {
    Seq::new(effects.len(), |i: int| Operation::Mutate(resolved(effects[i].0, cells), effects[i].1))
}

/// Running effects mounts and unmounts nothing.
pub proof fn lemma_mutations(effects: Seq<(Seq<Reference>, Mutator)>, cells: Seq<Option<ContainerID>>)
    ensures
        mounted(mutations(effects, cells)) == Seq::<ContainerID>::empty(),
        unmounted(mutations(effects, cells)) == Seq::<ContainerID>::empty(),
    decreases effects.len(),
{
    if effects.len() > 0 {
        lemma_mutations(effects.drop_last(), cells);
        assert(mutations(effects, cells).drop_last() =~= mutations(effects.drop_last(), cells));
    }
}

/// The error of a result, if it is one.
pub open spec fn failure<T>(result: Result<T, RenderError>) -> Option<RenderError> {
    match result {
        Ok(_) => None,
        Err(error) => Some(error),
    }
}

/// One pass over a tree: the buffer that the pass records into, and what
/// the pass needs of its renderer.
pub struct Render {
    pub(crate) buffer: CommandBuffer,
    pub(crate) bus: Bus,
    pub(crate) cells: Cells,
    pub(crate) links: u64,
    pub(crate) depth: usize,
}

impl Render {
    /// The operations recorded so far.
    pub open(crate) spec fn ops(&self) -> Seq<Operation> {
        self.buffer@
    }

    /// The id that the next mounted container gets.
    pub open(crate) spec fn counter(&self) -> nat {
        self.buffer.counter()
    }

    /// The buffers committed before this pass that the host has not taken.
    pub open(crate) spec fn pending(&self) -> Seq<Seq<Operation>> {
        self.buffer.pending()
    }

    /// The tasks that wait on the bus.
    pub open(crate) spec fn queued(&self) -> Seq<Task> {
        self.bus@
    }

    /// The reference cells.
    pub open(crate) spec fn references(&self) -> Seq<Option<ContainerID>> {
        self.cells@
    }

    /// The identity that the next instance gets.
    pub open(crate) spec fn identities(&self) -> nat {
        self.links as nat
    }

    /// How many components may be nested.
    pub open(crate) spec fn limit(&self) -> nat {
        self.depth as nat
    }

    /// The operations recorded since the pass was as `before`.
    pub open spec fn since(&self, before: Render) -> Seq<Operation> {
        self.ops().skip(before.ops().len() as int)
    }

    /// Whether the pass has gone on from `before`: operations were only
    /// added, tasks were only queued, ids and identities were only handed
    /// out, and the ids that the added operations mount are exactly those
    /// handed out, in order.
    pub open spec fn extends(&self, before: Render) -> bool {
        &&& before.ops().is_prefix_of(self.ops())
        &&& before.queued().is_prefix_of(self.queued())
        &&& self.pending() == before.pending()
        &&& self.limit() == before.limit()
        &&& before.counter() <= self.counter()
        &&& before.identities() <= self.identities()
        &&& mounted(self.since(before)) == fresh(before.counter() as int, self.counter() as int)
    }

    /// What is owed of a pass that runs no component and, as seen from
    /// `before`, asks for at most `builtins` containers and `instances`
    /// instances, exactly so many where `all` is set: it stops only because
    /// ids or identities are used up, it does not stop if there are enough
    /// of both, and it hands out no more than it was asked for.
    pub open spec fn owed(
        &self,
        before: Render,
        failed: Option<RenderError>,
        builtins: nat,
        instances: nat,
        all: bool,
    ) -> bool {
        &&& failed matches Some(error) ==> error == RenderError::Exhausted
        &&& before.counter() + builtins <= usize::MAX && before.identities() + instances
            <= u64::MAX ==> failed.is_none()
        &&& failed.is_none() ==> self.counter() <= before.counter() + builtins && self.identities()
            <= before.identities() + instances
        &&& failed.is_none() && all ==> self.counter() == before.counter() + builtins
            && self.identities() == before.identities() + instances
    }

    /// Whether the pass has done nothing since it was as `before`: nothing
    /// was recorded, and no id or identity was handed out.
    pub open spec fn quiet(&self, before: Render) -> bool {
        &&& self.ops() == before.ops()
        &&& self.counter() == before.counter()
        &&& self.identities() == before.identities()
        &&& self.references() == before.references()
        &&& self.queued() == before.queued()
    }

    /// What holds of a pass however it goes on from `before`: tasks are only
    /// queued, ids and identities are only handed out, and the limit and the
    /// committed buffers stay.
    pub open spec fn advanced(&self, before: Render) -> bool {
        &&& before.queued().is_prefix_of(self.queued())
        &&& self.pending() == before.pending()
        &&& self.limit() == before.limit()
        &&& before.counter() <= self.counter()
        &&& before.identities() <= self.identities()
    }

    /// Whether the pass is as `before` but for the operations it recorded.
    pub open spec fn otherwise(&self, before: Render) -> bool {
        &&& self.queued() == before.queued()
        &&& self.pending() == before.pending()
        &&& self.references() == before.references()
        &&& self.limit() == before.limit()
        &&& self.counter() == before.counter()
        &&& self.identities() == before.identities()
    }

    /// A pass that has gone on twice has gone on.
    pub proof fn lemma_extends(&self, middle: Render, before: Render)
        requires
            middle.extends(before),
            self.extends(middle),
        ensures
            self.extends(before),
            self.since(before) == middle.since(before) + self.since(middle),
    {
        assert(self.since(before) =~= middle.since(before) + self.since(middle));
        lemma_mounted_concat(middle.since(before), self.since(middle));
        crate::ledger::lemma_fresh_concat(
            before.counter() as int,
            middle.counter() as int,
            self.counter() as int,
        );
    }

    /// A pass that has recorded nothing has gone on.
    pub proof fn lemma_extends_self(&self)
        ensures
            self.extends(*self),
            self.since(*self) == Seq::<Operation>::empty(),
    {
        assert(self.since(*self) =~= Seq::<Operation>::empty());
        assert(fresh(self.counter() as int, self.counter() as int) =~= Seq::<ContainerID>::empty());
    }
}

/// `items` in reverse order.
fn reversed<T>(items: Vec<T>) -> (stack: Vec<T>)
    ensures
        stack@.len() == items@.len(),
        forall|k: int| 0 <= k < stack@.len() ==> stack@[k] == items@[items@.len() - 1 - k],
{
    let mut items = items;
    let mut stack: Vec<T> = Vec::new();
    let ghost all = items@;
    while items.len() > 0
        invariant
            items@.len() + stack@.len() == all.len(),
            items@ == all.take(items@.len() as int),
            forall|k: int| 0 <= k < stack@.len() ==> stack@[k] == all[all.len() - 1 - k],
        decreases items@.len(),
    {
        let item = items.pop().unwrap();
        stack.push(item);
    }
    stack
}

impl Render {
    /// Whether the step of a pass from `from` to `self` is the step for the
    /// one element `node` among the children `children` of an instance
    /// that targets `target`: the pass has gone on; where no child is kept
    /// for `node` and `node` is a builtin, the first thing recorded is its
    /// mount into `target`, under the next id; and where `node` runs no
    /// component, what is recorded is exactly its `trace`.
    #[verifier::opaque]
    pub open spec fn recorded<C>(
        &self,
        from: Render,
        children: Seq<Instance<C>>,
        node: Node<C>,
        target: ContainerID,
    ) -> bool {
        &&& self.extends(from)
        &&& (!crate::ledger::held(children, node) ==> (node matches Node::Builtin { builtin, .. }
            ==> self.since(from).len() > 0 && self.since(from)[0] == Operation::Mount(
            ContainerID(from.counter() as usize),
            target,
            builtin,
        )))
        &&& (node.plain() ==> self.since(from) == crate::ledger::trace(
            children,
            node,
            target,
            from.counter(),
        ).0)
    }

    /// Whether a pass from `start` to `self` over the children `children`
    /// of an instance that targets `target` went element by element
    /// through `stages`: it began as the first stage, the step from each
    /// stage to the next is the step for the element of that place in
    /// `wanted`, and after the last stage the children that go were
    /// unmounted and nothing else was done.
    pub open spec fn staged<C>(
        &self,
        start: Render,
        stages: Seq<Render>,
        children: Seq<Instance<C>>,
        wanted: Seq<Node<C>>,
        target: ContainerID,
    ) -> bool {
        &&& stages.len() == wanted.len() + 1
        &&& stages[0] == start
        &&& forall|u: int|
            0 <= u < wanted.len() ==> stages[u + 1].recorded(
                #[trigger] stages[u],
                children,
                wanted[u],
                target,
            )
        &&& self.otherwise(stages.last())
        &&& self.ops() == stages.last().ops() + removals(
            crate::ledger::outgoing(children, wanted, children.len() as int),
        )
    }

    /// What a pass over one instance has done. The pass began as `start`
    /// at the instance `before`, has left the instance as `after`, and has
    /// ended as `self`, well or with `failure`. The clauses say, in turn:
    /// what holds however the pass ended; when the depth limit stops it;
    /// what a pass that went well leaves; that a settled tree without
    /// components is left alone; what a tree without components is owed
    /// and what exactly is recorded for it, on a first render and
    /// afterwards; which children are kept and which go; and that the
    /// elements below an instance that is no component are taken one
    /// after the other.
    pub open spec fn passed<C>(
        &self,
        start: Render,
        before: Instance<C>,
        after: Instance<C>,
        failure: Option<RenderError>,
    ) -> bool {
        &&& (self.advanced(start))
        &&& (before.depth() > start.limit() || (before.node() is Component && before.depth() >= start.limit()) ==> failure == Some(RenderError::Depth))
        &&& (failure is None ==> {
                &&& self.extends(start)
                &&& after.same(before)
                &&& (!(before.node() is Component) ==> after.slots() == before.slots())
                &&& after.bound() == before.node().binds()
                &&& after.settled()
                &&& after.bounded(self.counter())
                &&& accounts(
                    owned_by(before.children()),
                    owned_by(after.children()),
                    self.since(start),
                )
            })
        &&& (before.settled() && before.node().plain() && before.depth() <= start.limit() ==> failure is None && self.quiet(start) && owned_by(
                after.children(),
            ) == owned_by(before.children()))
        &&& (before.node().plain() && before.depth() <= start.limit()
                ==> self.owed(
                start,
                failure,
                Node::builtins_of(before.node().edges()),
                Node::instances_of(before.node().edges()),
                before.children().len() == 0,
            ))
        &&& (before.node().plain() && before.depth() <= start.limit() && before.children().len() == 0 && failure is None ==> self.since(start)
                == Node::script_of(
                before.node().edges(),
                before.target(),
                start.counter(),
            ) && owned_by(after.children()) == Node::holdings_of(
                before.node().edges(),
                start.counter(),
            ) && self.references() == Node::inscribed_of(
                before.node().edges(),
                start.references(),
                start.counter(),
            ))
        &&& (!(before.node() is Component) && before.unambiguous() && failure is None
                ==> after.keeps(
                before.children(),
                |child: Instance<C>| crate::ledger::asked(before.node().edges(), child.key(), child.owns()),
            ))
        &&& (!(before.node() is Component) && before.unambiguous() && failure is None
                ==> exists|kept: Render|
                {
                    &&& kept.extends(start)
                    &&& self.otherwise(kept)
                    &&& self.ops() == kept.ops() + removals(
                        crate::ledger::outgoing(
                            before.children(),
                            before.node().edges(),
                            before.children().len() as int,
                        ),
                    )
                })
        &&& (!(before.node() is Component) && before.children().len() == 0 && failure is None ==> after.lined_up(
                before.node().edges(),
                if before.node().plain() {
                    Some(start.counter())
                } else {
                    None
                },
            ))
        &&& (before.node().plain() && before.depth() <= start.limit() && before.unambiguous() && failure is None ==> self.since(start)
                == crate::ledger::trace_of(
                before.children(),
                before.node().edges(),
                before.target(),
                start.counter(),
                before.node().edges().len() as int,
            ).0 + removals(
                crate::ledger::outgoing(
                    before.children(),
                    before.node().edges(),
                    before.children().len() as int,
                ),
            ) && self.counter() == start.counter() + crate::ledger::trace_of(
                before.children(),
                before.node().edges(),
                before.target(),
                start.counter(),
                before.node().edges().len() as int,
            ).1)
        &&& (!(before.node() is Component) && before.unambiguous() && failure is None
            ==> exists|stages: Seq<Render>|
            self.staged(start, stages, before.children(), before.node().edges(), before.target()))
    }
}

impl Render {
    /// Removes `instance` and everything below it from the interface: the
    /// containers that the tree owns are unmounted, those of the children
    /// before that of their parent, and siblings in order.
    pub fn unmount<C>(&mut self, instance: &Instance<C>)
        ensures
            final(self).ops() == old(self).ops() + removals(instance.owned()),
            final(self).otherwise(*old(self)),
        decreases instance,
    {
        let n = instance.memory.edges.len();
        let mut i: usize = 0;
        proof {
            assert(instance.children().take(0) =~= Seq::<Instance<C>>::empty());
            assert(removals(owned_by(instance.children().take(0))) =~= Seq::<Operation>::empty());
            assert(self.ops() + Seq::<Operation>::empty() =~= self.ops());
        }
        while i < n
            invariant
                i <= n,
                n == instance.children().len(),
                self.ops() == old(self).ops() + removals(owned_by(instance.children().take(i as int))),
                self.otherwise(*old(self)),
            decreases n - i,
        {
            let ghost done = owned_by(instance.children().take(i as int));
            self.unmount(&instance.memory.edges[i]);
            proof {
                let child = instance.children()[i as int];
                assert(instance.children().take(i + 1) =~= instance.children().take(i as int).push(
                    child,
                ));
                lemma_owned_by_push(instance.children().take(i as int), child);
                lemma_removals_concat(done, child.owned());
                assert(old(self).ops() + removals(done) + removals(child.owned()) =~= old(self).ops() + (removals(done) + removals(child.owned())));
            }
            i = i + 1;
        }
        proof {
            assert(instance.children().take(n as int) =~= instance.children());
        }
        if instance.is_builtin() {
            self.buffer.unmount(instance.container);
            proof {
                let below = owned_by(instance.children());
                assert(removals(below.push(instance.target())) =~= removals(below).push(
                    Operation::Unmount(instance.target()),
                ));
                assert((old(self).ops() + removals(below)).push(
                    Operation::Unmount(instance.target()),
                ) =~= old(self).ops() + removals(below).push(Operation::Unmount(instance.target())));
            }
        }
    }

    /// Runs one effect: records the change that it asks for, to the
    /// containers that its targets name by now.
    pub fn run(&mut self, effect: Effect)
        ensures
            final(self).ops() == old(self).ops().push(
                Operation::Mutate(resolved(effect@.0, old(self).references()), effect@.1),
            ),
            final(self).otherwise(*old(self)),
    {
        let mut ids: Vec<ContainerID> = Vec::new();
        let mut i: usize = 0;
        assert(effect.targets@.take(0) =~= Seq::<Reference>::empty());
        while i < effect.targets.len()
            invariant
                i <= effect.targets@.len(),
                ids@ == resolved(effect.targets@.take(i as int), self.references()),
                self == old(self),
            decreases effect.targets@.len() - i,
        {
            let target = effect.targets[i];
            proof {
                assert(effect.targets@.take(i + 1).drop_last() =~= effect.targets@.take(i as int));
                assert(effect.targets@.take(i + 1).last() == target);
            }
            match self.cells.get(target) {
                Some(id) => {
                    ids.push(id);
                },
                None => {},
            }
            i = i + 1;
        }
        assert(effect.targets@.take(effect.targets@.len() as int) =~= effect.targets@);
        self.buffer.mutate(ids.as_slice(), effect.mutator);
    }

    /// Ends the pass over the children of `instance`: the children that are
    /// not marked are unmounted, in order, and leave the memory; the marked
    /// ones stay, in their order.
    fn sweep<C>(&mut self, instance: &mut Instance<C>, marks: Vec<bool>)
        requires
            marks@.len() == old(instance).children().len(),
        ensures
            final(instance).children() == kept(
                old(instance).children(),
                marks@,
                marks@.len() as int,
            ),
            final(instance).same(*old(instance)),
            final(instance).bound() == old(instance).bound(),
            final(instance).slots() == old(instance).slots(),
            final(self).ops() == old(self).ops() + removals(
                released(old(instance).children(), marks@, marks@.len() as int),
            ),
            final(self).otherwise(*old(self)),
    {
        let ghost all = instance.children();
        let n = marks.len();
        let mut edges: Vec<Instance<C>> = Vec::new();
        core::mem::swap(&mut instance.memory.edges, &mut edges);
        let mut stack = reversed(edges);
        let mut k: usize = 0;
        proof {
            assert(removals(released(all, marks@, 0)) =~= Seq::<Operation>::empty());
            assert(self.ops() + Seq::<Operation>::empty() =~= self.ops());
        }
        while k < n
            invariant
                k <= n,
                n == marks@.len(),
                n == all.len(),
                stack@.len() == n - k,
                forall|j: int| 0 <= j < stack@.len() ==> stack@[j] == all[n - 1 - j],
                instance.children() == kept(all, marks@, k as int),
                instance.same(*old(instance)),
                instance.bound() == old(instance).bound(),
                instance.slots() == old(instance).slots(),
                self.ops() == old(self).ops() + removals(released(all, marks@, k as int)),
                self.otherwise(*old(self)),
            decreases n - k,
        {
            let child = stack.pop().unwrap();
            assert(child == all[k as int]);
            if marks[k] {
                instance.memory.edges.push(child);
            } else {
                let ghost done = released(all, marks@, k as int);
                self.unmount(&child);
                proof {
                    lemma_removals_concat(done, child.owned());
                    assert(old(self).ops() + removals(done) + removals(child.owned()) =~= old(self).ops() + (removals(done) + removals(child.owned())));
                }
            }
            k = k + 1;
        }
    }
}

/// How far below the limit the children of `parent` stand; the whole limit
/// without a parent.
pub open spec fn room<C>(limit: nat, parent: Option<&Instance<C>>) -> int {
    match parent {
        Some(p) => limit - p.below(),
        None => limit as int,
    }
}

impl Render {
    /// A pass for `renderer`: an empty buffer on the renderer's compositor,
    /// and the renderer's bus, cells, identities and limit.
    pub fn new(renderer: Renderer) -> (render: Render)
        ensures
            render.ops() == Seq::<Operation>::empty(),
            render.counter() == renderer.counter(),
            render.pending() == renderer.pending(),
            render.queued() == renderer.queued(),
            render.references() == renderer.references(),
            render.identities() == renderer.identities(),
            render.limit() == renderer.limit(),
    {
        let Renderer { compositor, bus, cells, links, depth } = renderer;
        Render { buffer: compositor.buffer(), bus, cells, links, depth }
    }

    /// Ends the pass: the recorded operations are committed as one batch,
    /// and the renderer is given back.
    pub fn commit(self) -> (renderer: Renderer)
        ensures
            renderer.counter() == self.counter(),
            renderer.pending() == self.pending().push(self.ops()),
            renderer.queued() == self.queued(),
            renderer.references() == self.references(),
            renderer.identities() == self.identities(),
            renderer.limit() == self.limit(),
    {
        let Render { buffer, bus, cells, links, depth } = self;
        Renderer { compositor: buffer.commit(), bus, cells, links, depth }
    }

    /// Gives the pass up: the recorded operations are dropped, and the
    /// renderer is given back with the ids and identities that were handed
    /// out still handed out.
    pub fn abandon(self) -> (renderer: Renderer)
        ensures
            renderer.counter() == self.counter(),
            renderer.pending() == self.pending(),
            renderer.queued() == self.queued(),
            renderer.references() == self.references(),
            renderer.identities() == self.identities(),
            renderer.limit() == self.limit(),
    {
        let Render { buffer, bus, cells, links, depth } = self;
        Renderer { compositor: buffer.discard(), bus, cells, links, depth }
    }

    /// Brings the instance of a builtin into line: the one element below
    /// the builtin is rendered into the builtin's container.
    fn rerender_builtin<C: Component>(&mut self, instance: &mut Instance<C>, children: Element<C>) -> (result:
        Result<(), RenderError>)
        requires
            old(instance).node() matches Node::Builtin { children: c, .. } && *c == children@,
            old(instance).prepared(),
            old(instance).bounded(old(self).counter()),
            old(instance).depth() <= old(self).limit(),
        ensures
            final(self).passed(*old(self), *old(instance), *final(instance), failure(result)),
        decreases old(self).limit() - old(instance).depth(), old(instance).node().height(), 1nat,
    {
        instance.context = ContextFrame::new();
        let mut edges: Vec<Element<C>> = Vec::new();
        edges.push(children);
        proof {
            if old(instance).settled() {
                assert(instance.bound() =~= old(instance).bound());
                instance.lemma_realises_alike(*old(instance), old(instance).wanted());
            }
            assert(nodes(edges@) =~= seq![children@]);
            assert(nodes(edges@) == instance.node().edges());
            instance.node().lemma_edges();
        }
        match self.rerender_edges(instance, edges) {
            Ok(()) => {
                proof {
                    instance.lemma_settled();
                }
                Ok(())
            },
            Err(error) => Err(error),
        }
    }

    /// Brings the instance of a context into line: the value is bound, in
    /// place of the instance's earlier value of that kind, and the one
    /// element below the context is rendered where it can see the value.
    fn rerender_context<C: Component>(
        &mut self,
        instance: &mut Instance<C>,
        value: ContextValue,
        children: Element<C>,
    ) -> (result: Result<(), RenderError>)
        requires
            old(instance).node() matches Node::Context { value: v, children: c, .. } && v == value
                && *c == children@,
            old(instance).prepared(),
            old(instance).bounded(old(self).counter()),
            old(instance).depth() <= old(self).limit(),
        ensures
            final(self).passed(*old(self), *old(instance), *final(instance), failure(result)),
        decreases old(self).limit() - old(instance).depth(), old(instance).node().height(), 1nat,
    {
        instance.context = ContextFrame::new();
        instance.context.insert(value);
        assert(instance.children() == old(instance).children());
        let mut edges: Vec<Element<C>> = Vec::new();
        edges.push(children);
        proof {
            if old(instance).settled() {
                assert(instance.bound() =~= old(instance).bound());
                instance.lemma_realises_alike(*old(instance), old(instance).wanted());
            }
            assert(nodes(edges@) =~= seq![children@]);
            assert(nodes(edges@) == instance.node().edges());
            instance.node().lemma_edges();
        }
        match self.rerender_edges(instance, edges) {
            Ok(()) => {
                proof {
                    instance.lemma_settled();
                }
                Ok(())
            },
            Err(error) => Err(error),
        }
    }

    /// Brings the instance of a fragment into line with the fragment's
    /// elements.
    fn rerender_fragment<C: Component>(
        &mut self,
        instance: &mut Instance<C>,
        elements: Vec<Element<C>>,
    ) -> (result: Result<(), RenderError>)
        requires
            old(instance).node() matches Node::Fragment { elements: e, .. } && e == nodes(elements@),
            old(instance).prepared(),
            old(instance).bounded(old(self).counter()),
            old(instance).depth() <= old(self).limit(),
        ensures
            final(self).passed(*old(self), *old(instance), *final(instance), failure(result)),
        decreases old(self).limit() - old(instance).depth(), old(instance).node().height(), 1nat,
    {
        instance.context = ContextFrame::new();
        proof {
            if old(instance).settled() {
                assert(instance.bound() =~= old(instance).bound());
                instance.lemma_realises_alike(*old(instance), old(instance).wanted());
            }
            instance.node().lemma_edges();
        }
        match self.rerender_edges(instance, elements) {
            Ok(()) => {
                proof {
                    instance.lemma_settled();
                }
                Ok(())
            },
            Err(error) => Err(error),
        }
    }

    /// Makes the manager that the component of `instance` is handed: bound
    /// to the instance's slots and identity, to what the instance sees, to
    /// the renderer's reference cells, and to `children`. The slots and the
    /// cells move into the manager; `accept` stores them back.
    pub fn manager<C: Component>(&mut self, instance: &mut Instance<C>, children: Element<C>) -> (m:
        Manager<C>)
        ensures
            m.context() == old(instance).visible(),
            m.slots() == old(instance).slots(),
            m.cells() == old(self).references(),
            m.given() == children@,
            m.target() == old(instance).id(),
            m.cursor() == 0,
            !m.broken(),
            m.effects() == Seq::<(Seq<Reference>, Mutator)>::empty(),
            m.submitted() == Seq::<Task>::empty(),
            final(self).ops() == old(self).ops(),
            final(self).queued() == old(self).queued(),
            final(self).pending() == old(self).pending(),
            final(self).limit() == old(self).limit(),
            final(self).counter() == old(self).counter(),
            final(self).identities() == old(self).identities(),
            final(instance).same(*old(instance)),
            final(instance).bound() == old(instance).bound(),
            final(instance).children() == old(instance).children(),
    {
        let mut cells = Cells::new();
        core::mem::swap(&mut self.cells, &mut cells);
        let mut slots: Vec<crate::instance::Slot> = Vec::new();
        core::mem::swap(&mut instance.memory.slots, &mut slots);
        let context = instance.inherited.enter(&instance.context);
        Manager::new(cells, slots, context, children, instance.link)
    }

    /// Takes in what a component left: the slots go back into the memory of
    /// `instance` and the cells back to the renderer, and the tasks that
    /// the component submitted are queued, in their order. Then the render
    /// is judged: a render whose hooks were out of order fails with
    /// `Hooks`, one whose output cannot be rendered with `Invalid`; else
    /// the output and the effects are handed on.
    pub fn accept<C: Component>(
        &mut self,
        instance: &mut Instance<C>,
        rendered: Rendered,
        output: Element<C>,
    ) -> (result: Result<(Element<C>, Vec<Effect>), RenderError>)
        ensures
            final(self).references() == rendered.cells@,
            final(instance).slots() == rendered.slots@,
            final(self).queued() == old(self).queued() + rendered.submitted@,
            final(self).ops() == old(self).ops(),
            final(self).pending() == old(self).pending(),
            final(self).limit() == old(self).limit(),
            final(self).counter() == old(self).counter(),
            final(self).identities() == old(self).identities(),
            final(instance).same(*old(instance)),
            final(instance).bound() == old(instance).bound(),
            final(instance).children() == old(instance).children(),
            rendered.broken ==> result == Err::<(Element<C>, Vec<Effect>), RenderError>(
                RenderError::Hooks,
            ),
            !rendered.broken && !output@.renderable() ==> result == Err::<
                (Element<C>, Vec<Effect>),
                RenderError,
            >(RenderError::Invalid),
            !rendered.broken && output@.renderable() ==> (result matches Ok(handed) && handed.0@
                == output@ && crate::manager::effects_of(handed.1@) == crate::manager::effects_of(
                rendered.effects@,
            )),
    {
        let Rendered { submitted, cells, slots, effects, broken } = rendered;
        self.cells = cells;
        instance.memory.slots = slots;
        let mut s: usize = 0;
        proof {
            assert(self.queued() + submitted@.take(0) =~= self.queued());
        }
        while s < submitted.len()
            invariant
                s <= submitted@.len(),
                self.queued() == old(self).queued() + submitted@.take(s as int),
                self.references() == cells@,
                self.ops() == old(self).ops(),
                self.pending() == old(self).pending(),
                self.limit() == old(self).limit(),
                self.counter() == old(self).counter(),
                self.identities() == old(self).identities(),
            decreases submitted@.len() - s,
        {
            self.bus.queue_retain(submitted[s]);
            proof {
                assert((old(self).queued() + submitted@.take(s as int)).push(submitted@[s as int])
                    =~= old(self).queued() + submitted@.take(s + 1));
            }
            s = s + 1;
        }
        proof {
            assert(submitted@.take(submitted@.len() as int) =~= submitted@);
        }
        if broken {
            return Err(RenderError::Hooks);
        }
        if !output.is_renderable() {
            return Err(RenderError::Invalid);
        }
        Ok((output, effects))
    }

    /// Runs the component of `instance` once: hands it the manager that
    /// `manager` makes, and has `accept` take in what it rendered and left.
    fn expand<C: Component>(
        &mut self,
        instance: &mut Instance<C>,
        component: C,
        children: Element<C>,
    ) -> (result: Result<(Element<C>, Vec<Effect>), RenderError>)
        ensures
            final(self).ops() == old(self).ops(),
            final(self).pending() == old(self).pending(),
            final(self).limit() == old(self).limit(),
            final(self).counter() == old(self).counter(),
            final(self).identities() == old(self).identities(),
            old(self).queued().is_prefix_of(final(self).queued()),
            final(instance).same(*old(instance)),
            final(instance).bound() == old(instance).bound(),
            final(instance).children() == old(instance).children(),
            result matches Ok(rendered) ==> rendered.0@.renderable(),
            result matches Err(error) ==> error == RenderError::Hooks || error
                == RenderError::Invalid,
    {
        let mut manager = self.manager(instance, children);
        let output = component.render(&mut manager);
        let rendered = manager.finish();
        self.accept(instance, rendered, output)
    }

    /// Runs `effects`, the first first.
    pub fn conclude(&mut self, effects: Vec<Effect>)
        ensures
            final(self).ops() == old(self).ops() + mutations(
                crate::manager::effects_of(effects@),
                old(self).references(),
            ),
            final(self).otherwise(*old(self)),
    {
        let ghost all = crate::manager::effects_of(effects@);
        let ghost cells = self.references();
        let count = effects.len();
        let mut effects = reversed(effects);
        let mut k: usize = 0;
        proof {
            assert(mutations(all.take(0), cells) =~= Seq::<Operation>::empty());
            assert(self.ops() + Seq::<Operation>::empty() =~= self.ops());
        }
        while k < count
            invariant
                k <= count,
                count == all.len(),
                effects@.len() == count - k,
                forall|j: int|
                    0 <= j < effects@.len() ==> (#[trigger] effects@[j])@ == all[count - 1 - j],
                cells == old(self).references(),
                self.ops() == old(self).ops() + mutations(all.take(k as int), cells),
                self.otherwise(*old(self)),
            decreases count - k,
        {
            let effect = effects.pop().unwrap();
            assert(effect@ == all[k as int]);
            self.run(effect);
            proof {
                let done = mutations(all.take(k as int), cells);
                let next = mutations(all.take(k + 1), cells);
                assert(all.take(k + 1)[k as int] == all[k as int]);
                assert(next =~= done.push(
                    Operation::Mutate(resolved(all[k as int].0, cells), all[k as int].1),
                ));
                assert((old(self).ops() + done).push(
                    Operation::Mutate(resolved(all[k as int].0, cells), all[k as int].1),
                ) =~= old(self).ops() + next);
            }
            k = k + 1;
        }
        proof {
            assert(all.take(count as int) =~= all);
        }
    }

    /// Brings `instance`, which stands for a component, into line with
    /// what its component has rendered: the children are brought into line
    /// with `output`, and when that is done, and only then, `effects` are
    /// run, the first first.
    pub fn complete<C: Component>(
        &mut self,
        instance: &mut Instance<C>,
        output: Element<C>,
        effects: Vec<Effect>,
    ) -> (result: Result<(), RenderError>)
        requires
            old(instance).node() is Component,
            old(instance).bound() == old(instance).node().binds(),
            output@.renderable(),
            forall|i: int|
                0 <= i < old(instance).children().len() ==> (#[trigger] old(instance).children()[i]).settled(),
            forall|i: int|
                0 <= i < old(instance).children().len() ==> old(instance).anchors(
                    #[trigger] &old(instance).children()[i],
                ),
            old(instance).bounded(old(self).counter()),
            old(instance).depth() < old(self).limit(),
        ensures
            final(self).advanced(*old(self)),
            result is Ok ==> {
                &&& final(self).extends(*old(self))
                &&& final(instance).same(*old(instance))
                &&& final(instance).bound() == old(instance).bound()
                &&& final(instance).slots() == old(instance).slots()
                &&& final(instance).children().len() == 1
                &&& final(instance).children()[0].node() == output@
                &&& (old(instance).unambiguous() ==> final(instance).keeps(
                    old(instance).children(),
                    |child: Instance<C>| crate::ledger::asked(seq![output@], child.key(), child.owns()),
                ))
                &&& final(instance).settled()
                &&& final(instance).bounded(final(self).counter())
                &&& accounts(
                    owned_by(old(instance).children()),
                    owned_by(final(instance).children()),
                    final(self).since(*old(self)),
                )
                &&& exists|settled: Render|
                    {
                        &&& settled.extends(*old(self))
                        &&& final(self).otherwise(settled)
                        &&& final(self).ops() == settled.ops() + mutations(
                            crate::manager::effects_of(effects@),
                            settled.references(),
                        )
                        &&& old(instance).unambiguous() ==> exists|kept: Render|
                            {
                                &&& kept.extends(*old(self))
                                &&& settled.otherwise(kept)
                                &&& settled.ops() == kept.ops() + removals(
                                    crate::ledger::outgoing(
                                        old(instance).children(),
                                        seq![output@],
                                        old(instance).children().len() as int,
                                    ),
                                )
                            }
                    }
            },
            output@.plain() ==> final(self).owed(
                *old(self),
                failure(result),
                output@.builtins(),
                output@.instances(),
                old(instance).children().len() == 0,
            ),
            old(instance).idle(seq![output@]) ==> result is Ok && final(self).otherwise(*old(self))
                && final(self).ops() == old(self).ops() + mutations(
                crate::manager::effects_of(effects@),
                old(self).references(),
            ) && owned_by(final(instance).children()) == owned_by(old(instance).children()),
            output@.plain() && old(instance).unambiguous() && result is Ok ==> final(self).ops()
                == old(self).ops() + crate::ledger::trace_of(
                old(instance).children(),
                seq![output@],
                old(instance).target(),
                old(self).counter(),
                1,
            ).0 + removals(
                crate::ledger::outgoing(
                    old(instance).children(),
                    seq![output@],
                    old(instance).children().len() as int,
                ),
            ) + mutations(crate::manager::effects_of(effects@), final(self).references())
                && final(self).counter() == old(self).counter() + crate::ledger::trace_of(
                old(instance).children(),
                seq![output@],
                old(instance).target(),
                old(self).counter(),
                1,
            ).1,
            output@.plain() && old(instance).children().len() == 0 && result is Ok ==> final(self).ops() == old(self).ops() + output@.script(old(instance).target(), old(self).counter())
                + mutations(crate::manager::effects_of(effects@), final(self).references())
                && owned_by(final(instance).children()) == output@.holdings(old(self).counter())
                && final(self).references() == output@.inscribed(
                old(self).references(),
                old(self).counter(),
            ),
        decreases old(self).limit() - old(instance).depth(), old(instance).node().height(), 0nat,
    {
        let ghost start = *self;
        let mut edges: Vec<Element<C>> = Vec::new();
        edges.push(output);
        proof {
            assert(nodes(edges@) =~= seq![output@]);
            assert(nodes(edges@)[0] == output@);
            Node::lemma_one(output@, self.references(), self.counter());
            Node::lemma_script_one(output@, instance.target(), self.counter());
            Node::lemma_holdings_one(output@, self.counter());
        }
        match self.rerender_edges(instance, edges) {
            Ok(()) => {},
            Err(error) => {
                return Err(error);
            },
        }
        let ghost done = *self;
        proof {
            instance.lemma_only(output@);
            instance.lemma_settled();
        }
        self.conclude(effects);
        proof {
            assert(done.ops() == start.ops() + done.since(start)) by {
                assert(done.ops() =~= start.ops() + done.since(start));
            }
            let tail = mutations(crate::manager::effects_of(effects@), done.references());
            lemma_mutations(crate::manager::effects_of(effects@), done.references());
            assert(self.since(start) =~= done.since(start) + tail);
            if output@.plain() && old(instance).unambiguous() {
                let record = crate::ledger::trace_of(
                    old(instance).children(),
                    seq![output@],
                    old(instance).target(),
                    start.counter(),
                    1,
                ).0;
                let gone = removals(
                    crate::ledger::outgoing(
                        old(instance).children(),
                        seq![output@],
                        old(instance).children().len() as int,
                    ),
                );
                assert(done.since(start) == record + gone);
                assert(self.ops() =~= start.ops() + record + gone + tail);
            }
            lemma_mounted_concat(done.since(start), tail);
            lemma_unmounted_concat(done.since(start), tail);
            assert(mounted(self.since(start)) =~= mounted(done.since(start)));
            assert(unmounted(self.since(start)) =~= unmounted(done.since(start)));
            crate::ledger::lemma_accounts_quiet(
                owned_by(old(instance).children()),
                owned_by(instance.children()),
                done.since(start),
                self.since(start),
            );
        }
        Ok(())
    }

    /// Brings the instance of a component into line: the component is run
    /// once, the children are brought into line with what it rendered, and
    /// then the effects that it queued are run. A component that stands as
    /// deep as the limit allows is not run.
    fn rerender_component<C: Component>(
        &mut self,
        instance: &mut Instance<C>,
        component: C,
        children: Element<C>,
    ) -> (result: Result<(), RenderError>)
        requires
            old(instance).node() matches Node::Component { component: k, children: c, .. } && k
                == component && *c == children@,
            old(instance).prepared(),
            old(instance).bounded(old(self).counter()),
            old(instance).depth() <= old(self).limit(),
        ensures
            final(self).passed(*old(self), *old(instance), *final(instance), failure(result)),
        decreases old(self).limit() - old(instance).depth(), old(instance).node().height(), 1nat,
    {
        if instance.level >= self.depth {
            return Err(RenderError::Depth);
        }
        instance.context = ContextFrame::new();
        assert(instance.children() == old(instance).children());
        let ghost start = *self;
        let (output, effects) = match self.expand(instance, component, children) {
            Ok(rendered) => rendered,
            Err(error) => {
                return Err(error);
            },
        };
        let ghost middle = *self;
        proof {
            assert(self.since(start) =~= Seq::<Operation>::empty());
            assert(fresh(start.counter() as int, start.counter() as int) =~= Seq::<
                ContainerID,
            >::empty());
            assert(self.extends(start));
        }
        match self.complete(instance, output, effects) {
            Ok(()) => {},
            Err(error) => {
                return Err(error);
            },
        }
        proof {
            self.lemma_extends(middle, start);
            assert(middle.since(start) =~= Seq::<Operation>::empty());
            assert(self.since(start) =~= self.since(middle));
        }
        Ok(())
    }

    /// Brings the children of `instance` into line with `edges`. A child
    /// is kept where an element of `edges` has its key and is a builtin if
    /// and only if the child owns a container: it is given that element
    /// and rendered again. An element that no child answers to in this way
    /// is rendered for the first time, and its instance is added behind
    /// the children that are there. At the end the children that no
    /// element asked for are unmounted, in their order.
    #[verifier::rlimit(60)]
    fn rerender_edges<C: Component>(
        &mut self,
        instance: &mut Instance<C>,
        edges: Vec<Element<C>>,
    ) -> (result: Result<(), RenderError>)
        requires
            forall|t: int| 0 <= t < edges@.len() ==> (#[trigger] nodes(edges@)[t]).renderable(),
            Node::distinct(nodes(edges@)),
            forall|i: int|
                0 <= i < old(instance).children().len() ==> (#[trigger] old(instance).children()[i]).settled(),
            forall|i: int|
                0 <= i < old(instance).children().len() ==> old(instance).anchors(
                    #[trigger] &old(instance).children()[i],
                ),
            old(instance).bounded(old(self).counter()),
            old(instance).below() <= old(self).limit(),
        ensures
            final(self).advanced(*old(self)),
            result is Ok ==> {
                &&& final(self).extends(*old(self))
                &&& final(instance).same(*old(instance))
                &&& final(instance).bound() == old(instance).bound()
                &&& final(instance).slots() == old(instance).slots()
                &&& forall|i: int|
                    0 <= i < final(instance).children().len() ==> (#[trigger] final(instance).children()[i]).settled()
                &&& forall|i: int|
                    0 <= i < final(instance).children().len() ==> final(instance).holds(
                        #[trigger] &final(instance).children()[i],
                    )
                &&& final(instance).unambiguous()
                &&& final(instance).realises(nodes(edges@))
                &&& final(instance).bounded(final(self).counter())
                &&& accounts(
                    owned_by(old(instance).children()),
                    owned_by(final(instance).children()),
                    final(self).since(*old(self)),
                )
            },
            old(instance).idle(nodes(edges@)) ==> result is Ok && final(self).quiet(*old(self))
                && owned_by(final(instance).children()) == owned_by(old(instance).children()),
            (forall|u: int| 0 <= u < edges@.len() ==> (#[trigger] nodes(edges@)[u]).plain()) && old(instance).unambiguous() && result is Ok ==> final(self).since(*old(self))
                == crate::ledger::trace_of(
                old(instance).children(),
                nodes(edges@),
                old(instance).target(),
                old(self).counter(),
                edges@.len() as int,
            ).0 + removals(
                crate::ledger::outgoing(
                    old(instance).children(),
                    nodes(edges@),
                    old(instance).children().len() as int,
                ),
            ) && final(self).counter() == old(self).counter() + crate::ledger::trace_of(
                old(instance).children(),
                nodes(edges@),
                old(instance).target(),
                old(self).counter(),
                edges@.len() as int,
            ).1,
            old(instance).children().len() == 0 && result is Ok ==> final(instance).lined_up(
                nodes(edges@),
                if forall|u: int| 0 <= u < edges@.len() ==> (#[trigger] nodes(edges@)[u]).plain() {
                    Some(old(self).counter())
                } else {
                    None
                },
            ),
            old(instance).unambiguous() && result is Ok ==> final(instance).keeps(
                old(instance).children(),
                |child: Instance<C>| crate::ledger::asked(nodes(edges@), child.key(), child.owns()),
            ),
            old(instance).unambiguous() && result is Ok ==> exists|kept: Render|
                {
                    &&& kept.extends(*old(self))
                    &&& final(self).otherwise(kept)
                    &&& final(self).ops() == kept.ops() + removals(
                        crate::ledger::outgoing(
                            old(instance).children(),
                            nodes(edges@),
                            old(instance).children().len() as int,
                        ),
                    )
                },
            old(instance).unambiguous() && result is Ok ==> exists|stages: Seq<Render>|
                final(self).staged(
                    *old(self),
                    stages,
                    old(instance).children(),
                    nodes(edges@),
                    old(instance).target(),
                ),
            (forall|u: int| 0 <= u < edges@.len() ==> (#[trigger] nodes(edges@)[u]).plain())
                ==> final(self).owed(
                *old(self),
                failure(result),
                Node::builtins_of(nodes(edges@)),
                Node::instances_of(nodes(edges@)),
                old(instance).children().len() == 0,
            ),
            (forall|u: int| 0 <= u < edges@.len() ==> (#[trigger] nodes(edges@)[u]).plain()) && old(instance).children().len() == 0 && result is Ok ==> final(self).since(*old(self))
                == Node::script_of(nodes(edges@), old(instance).target(), old(self).counter())
                && owned_by(final(instance).children()) == Node::holdings_of(
                nodes(edges@),
                old(self).counter(),
            ) && final(self).references() == Node::inscribed_of(
                nodes(edges@),
                old(self).references(),
                old(self).counter(),
            ),
        decreases old(self).limit() - old(instance).below(), Node::tallest(nodes(edges@)), 0nat,
    {
        let ghost wanted = nodes(edges@);
        let ghost before = instance.children();
        let ghost start = *self;
        let ghost idle = instance.idle(wanted);
        let ghost plain = forall|u: int| 0 <= u < wanted.len() ==> (#[trigger] wanted[u]).plain();
        let n0 = instance.memory.edges.len();
        let count = edges.len();
        let mut marks: Vec<bool> = Vec::new();
        while marks.len() < n0
            invariant
                marks@.len() <= n0,
                forall|i: int| 0 <= i < marks@.len() ==> !marks@[i],
            decreases n0 - marks@.len(),
        {
            marks.push(false);
        }
        let visible = instance.inherited.enter(&instance.context);
        let below: usize = if instance.is_component() {
            instance.level + 1
        } else {
            instance.level
        };
        let container = instance.container;
        let mut stack = reversed(edges);
        let ghost mut origin: Seq<int> = Seq::new(n0 as nat, |i: int| 0int);
        let ghost mut place: Seq<int> = Seq::empty();
        let ghost mut stages: Seq<Render> = seq![start];
        let mut t: usize = 0;
        proof {
            assert(wanted.take(0) =~= Seq::<Node<C>>::empty());
            start.lemma_extends_self();
            lemma_accounts_nothing(owned_by(before));
            assert forall|i: int| 0 <= i < before.len() implies (#[trigger] before[i]).bounded(
                start.counter(),
            ) by {}
        }
        while t < count
            invariant
                t <= count,
                count == wanted.len(),
                stack@.len() == count - t,
                forall|k: int| 0 <= k < stack@.len() ==> (#[trigger] stack@[k])@ == wanted[count - 1 - k],
                forall|u: int| 0 <= u < wanted.len() ==> (#[trigger] wanted[u]).renderable(),
                Node::distinct(wanted),
                wanted == nodes(edges@),
                instance.same(*old(instance)),
                instance.bound() == old(instance).bound(),
                instance.slots() == old(instance).slots(),
                visible@ == instance.visible(),
                below == instance.below(),
                container == instance.target(),
                instance.below() <= self.limit(),
                self.extends(start),
                start == *old(self),
                n0 == before.len(),
                before == old(instance).children(),
                marks@.len() == instance.children().len(),
                origin.len() == marks@.len(),
                place.len() == t,
                marks@.len() >= n0,
                forall|i: int| 0 <= i < before.len() ==> (#[trigger] before[i]).settled(),
                forall|i: int| 0 <= i < before.len() ==> (#[trigger] before[i]).bounded(start.counter()),
                forall|i: int|
                    0 <= i < n0 && !marks@[i] ==> (#[trigger] instance.children()[i]) == before[i],
                forall|i: int| n0 <= i < marks@.len() ==> #[trigger] marks@[i],
                forall|i: int|
                    0 <= i < marks@.len() && marks@[i] ==> {
                        &&& (#[trigger] instance.children()[i]).settled()
                        &&& instance.holds(&instance.children()[i])
                        &&& 0 <= origin[i] < t
                        &&& wanted[origin[i]] == instance.children()[i].node()
                    },
                forall|u: int|
                    0 <= u < t ==> {
                        &&& 0 <= (#[trigger] place[u]) < marks@.len()
                        &&& marks@[place[u]]
                        &&& wanted[u] == instance.children()[place[u]].node()
                    },
                forall|a: int, b: int|
                    #![trigger instance.children()[a], instance.children()[b]]
                    0 <= a < b < marks@.len() && marks@[a] && marks@[b] ==> instance.children()[a].key()
                        != instance.children()[b].key(),
                instance.bounded(self.counter()),
                accounts(
                    owned_by(before),
                    owned_by(instance.children()),
                    self.since(start),
                ),
                idle == old(instance).idle(wanted),
                forall|i: int|
                    0 <= i < n0 ==> (#[trigger] instance.children()[i]).continues(before[i]),
                old(instance).unambiguous() ==> forall|i: int, j: int|
                    #![trigger instance.children()[i], instance.children()[j]]
                    0 <= i < n0 <= j < marks@.len() && instance.children()[i].key()
                        == instance.children()[j].key() ==> before[i].owns()
                        != instance.children()[j].owns(),
                forall|i: int| 0 <= i < before.len() ==> old(instance).anchors(#[trigger] &before[i]),
                plain == (forall|u: int| 0 <= u < wanted.len() ==> (#[trigger] wanted[u]).plain()),
                plain ==> self.owed(
                    start,
                    None,
                    Node::builtins_of(wanted.take(t as int)),
                    Node::instances_of(wanted.take(t as int)),
                    n0 == 0,
                ),
                plain && n0 == 0 ==> self.since(start) == Node::script_of(
                    wanted.take(t as int),
                    container,
                    start.counter(),
                ) && owned_by(instance.children()) == Node::holdings_of(
                    wanted.take(t as int),
                    start.counter(),
                ) && self.references() == Node::inscribed_of(
                    wanted.take(t as int),
                    start.references(),
                    start.counter(),
                ),
                plain && old(instance).unambiguous() ==> self.since(start)
                    == crate::ledger::trace_of(
                    before,
                    wanted,
                    container,
                    start.counter(),
                    t as int,
                ).0 && self.counter() == start.counter() + crate::ledger::trace_of(
                    before,
                    wanted,
                    container,
                    start.counter(),
                    t as int,
                ).1,
                n0 == 0 ==> instance.lined_up(
                    wanted.take(t as int),
                    if plain {
                        Some(start.counter())
                    } else {
                        None
                    },
                ),
                idle ==> self.quiet(start) && marks@.len() == n0,
                idle ==> forall|i: int|
                    0 <= i < n0 ==> (#[trigger] instance.children()[i]).same(before[i])
                        && instance.children()[i].owned() == before[i].owned(),
                stages.len() == t + 1,
                stages[0] == start,
                stages[t as int] == *self,
                old(instance).unambiguous() ==> forall|u: int|
                    0 <= u < t ==> stages[u + 1].recorded(
                        #[trigger] stages[u],
                        before,
                        wanted[u],
                        container,
                    ),
            decreases count - t,
        {
            let element = stack.pop().unwrap();
            assert(element@ == wanted[t as int]);
            let key = element.key();
            let builtin = element.is_builtin();
            proof {
                Node::lemma_tallest(wanted, t as int);
                Node::lemma_take(wanted, t as int);
                Node::lemma_take(wanted, t + 1);
                Node::lemma_script_take(wanted, t as int, container, start.counter());
                Node::lemma_holdings(wanted, t as int, start.counter());
                Node::lemma_inscribed(wanted, t as int, start.references(), start.counter());
                wanted[t as int].lemma_edges();
                if plain {
                    assert(wanted[t as int].plain());
                }
                self.buffer.lemma_counter();
                assert forall|i: int| 0 <= i < instance.children().len() implies !((
                #[trigger] instance.children()[i]).node() is String) by {
                    if i < n0 && !marks@[i] {
                        assert(before[i].settled());
                    }
                }
            }
            let found = instance.memory.position(key);
            let kept: Option<usize> = match found {
                Some(i) => if instance.memory.edges[i].is_builtin() == builtin {
                    Some(i)
                } else {
                    None
                },
                None => None,
            };
            proof {
                if found is Some {
                    let i = found->Some_0 as int;
                    if marks@[i] {
                        let u = origin[i];
                        assert(wanted[u].key() == wanted[t as int].key());
                        assert(false);
                    }
                    assert(instance.children()[i] == before[i]);
                }
            }
            match kept {
                Some(i) => {
                    let ghost now = instance.children();
                    proof {
                        if marks@[i as int] {
                            let u = origin[i as int];
                            assert(wanted[u].key() == wanted[t as int].key());
                            assert(false);
                        }
                        assert(now[i as int] == before[i as int]);
                        before[i as int].lemma_bounded_grows(start.counter(), self.counter());
                        if idle {
                            assert(before[i as int].node() == wanted[t as int]) by {
                                reveal(Instance::covers);
                                let j = choose|j: int|
                                    0 <= j < before.len() && wanted[t as int] == before[j].node();
                                assert(now[j].same(before[j]));
                                if j != i {
                                    assert(before[j].key() == before[i as int].key());
                                    if j < i {
                                        assert(old(instance).children()[j].key() != old(instance).children()[i as int].key());
                                    } else {
                                        assert(old(instance).children()[i as int].key() != old(instance).children()[j].key());
                                    }
                                }
                            }
                        }
                    }
                    marks[i] = true;
                    let child = &mut instance.memory.edges[i];
                    child.memory.element = element;
                    child.level = below;
                    child.inherited = visible.duplicate();
                    let ghost middle = *self;
                    let ghost fitted = *child;
                    proof {
                        if idle {
                            let was = before[i as int];
                            assert(old(instance).holds(&was));
                            fitted.lemma_settled_alike(was);
                            assert(wanted[t as int].plain());
                        }
                        assert(before[i as int].unambiguous());
                        assert(fitted.unambiguous());
                    }
                    match self.rerender(child) {
                        Ok(()) => {},
                        Err(error) => {
                            return Err(error);
                        },
                    }
                    let ghost next = *child;
                    proof {
                        let was = before[i as int];
                        assert(instance.children() == now.update(i as int, next));
                        assert(middle.extends(start));
                        self.lemma_extends(middle, start);
                        self.buffer.lemma_counter();
                        assert forall|id: ContainerID| #[trigger] was.owned().contains(id) implies id.0
                            < start.counter() && owned_by(before).contains(id) by {
                            was.lemma_bounded_owned(start.counter(), id);
                            lemma_owned_by_has(before, i as int, id);
                        }
                        assert forall|id: ContainerID|
                            #![trigger tally(owned_by(instance.children()), id)]
                            tally(owned_by(instance.children()), id) + tally(was.owned(), id) == tally(
                                owned_by(now),
                                id,
                            ) + tally(next.owned(), id) by {
                            lemma_owned_by_update(now, i as int, next, id);
                        }
                        assert forall|id: ContainerID| #[trigger] owned_by(was.children()).contains(
                            id,
                        ) implies was.owned().contains(id) by {
                            let k = choose|k: int|
                                0 <= k < owned_by(was.children()).len() && owned_by(
                                    was.children(),
                                )[k] == id;
                            assert(was.owned()[k] == id);
                        }
                        assert forall|id: ContainerID| #[trigger] owned_by(next.children()).contains(
                            id,
                        ) implies next.owned().contains(id) by {
                            let k = choose|k: int|
                                0 <= k < owned_by(next.children()).len() && owned_by(
                                    next.children(),
                                )[k] == id;
                            assert(next.owned()[k] == id);
                        }
                        {
                            assert(was.owns() == next.owns());
                            assert forall|id: ContainerID|
                                #![trigger tally(was.owned(), id)]
                                tally(was.owned(), id) + tally(owned_by(next.children()), id) == tally(
                                    next.owned(),
                                    id,
                                ) + tally(owned_by(was.children()), id) by {
                                crate::compositor::lemma_tally_push(
                                    owned_by(was.children()),
                                    was.target(),
                                    id,
                                );
                                crate::compositor::lemma_tally_push(
                                    owned_by(next.children()),
                                    next.target(),
                                    id,
                                );
                            }
                        }
                        lemma_accounts_replace(
                            owned_by(before),
                            owned_by(now),
                            owned_by(instance.children()),
                            was.owned(),
                            next.owned(),
                            owned_by(was.children()),
                            owned_by(next.children()),
                            middle.since(start),
                            self.since(middle),
                            start.counter() as int,
                            middle.counter() as int,
                            self.counter() as int,
                        );
                        origin = origin.update(i as int, t as int);
                        place = place.push(i as int);
                        assert(stages[t as int] == middle);
                        if old(instance).unambiguous() && !wanted[t as int].plain() {
                            let node = wanted[t as int];
                            assert(was.key() == node.key() && was.owns() == (node is Builtin));
                            assert(crate::ledger::held(before, node));
                            assert(self.recorded(middle, before, node, container)) by {
                                reveal(Render::recorded);
                            }
                        }
                        if old(instance).unambiguous() && wanted[t as int].plain() {
                            let node = wanted[t as int];
                            assert(was.key() == node.key() && was.owns() == (node is Builtin));
                            assert(crate::ledger::held(before, node));
                            let h = crate::ledger::holder(before, node);
                            if h != i {
                                if h < i {
                                    assert(old(instance).children()[h].key() != old(instance).children()[i as int].key());
                                } else {
                                    assert(old(instance).children()[i as int].key() != old(instance).children()[h].key());
                                }
                            }
                            assert(fitted.children() == was.children());
                            assert(h == i);
                            let below = crate::ledger::trace_of(
                                was.children(),
                                node.edges(),
                                was.target(),
                                middle.counter(),
                                node.edges().len() as int,
                            );
                            assert(fitted.node() == node);
                            assert(fitted.depth() <= middle.limit());
                            assert(self.since(middle) == below.0 + removals(
                                crate::ledger::outgoing(
                                    was.children(),
                                    node.edges(),
                                    was.children().len() as int,
                                ),
                            ));
                            let tr = crate::ledger::trace(before, node, container, middle.counter());
                            assert(tr.0 == self.since(middle));
                            assert(tr.1 == below.1);
                            assert(self.recorded(middle, before, node, container)) by {
                                reveal(Render::recorded);
                            }
                            if plain {
                                let prev = crate::ledger::trace_of(
                                    before,
                                    wanted,
                                    container,
                                    start.counter(),
                                    t as int,
                                );
                                assert(middle.counter() == start.counter() + prev.1);
                                assert(middle.since(start) == prev.0);
                                assert(self.since(start) == middle.since(start) + self.since(middle));
                                assert(self.since(start) == crate::ledger::trace_of(
                                    before,
                                    wanted,
                                    container,
                                    start.counter(),
                                    t + 1,
                                ).0);
                            }
                        }
                        stages = stages.push(*self);
                        assert forall|j: int|
                            0 <= j < instance.children().len() implies (#[trigger] instance.children()[j]).bounded(
                            self.counter(),
                        ) by {
                            if j != i {
                                now[j].lemma_bounded_grows(middle.counter(), self.counter());
                            }
                        }
                    }
                },
                None => {
                    let ghost now = instance.children();
                    let ghost middle = *self;
                    proof {
                        if idle {
                            reveal(Instance::covers);
                            let j = choose|j: int|
                                0 <= j < before.len() && wanted[t as int] == before[j].node();
                            assert(now[j].same(before[j]));
                            assert(now[j].key() == key);
                            let i = found->Some_0 as int;
                            assert(found is Some);
                            if j != i {
                                assert(before[j].key() == before[i].key());
                                if j < i {
                                    assert(old(instance).children()[j].key() != old(instance).children()[i].key());
                                } else {
                                    assert(old(instance).children()[i].key() != old(instance).children()[j].key());
                                }
                            }
                            assert(false);
                        }
                        if old(instance).unambiguous() {
                            assert forall|i: int|
                                0 <= i < n0 && now[i].key() == key implies before[i].owns()
                                != builtin by {
                                let f = found->Some_0 as int;
                                assert(found is Some);
                                if i != f {
                                    assert(now[i].continues(before[i]));
                                    assert(now[f].continues(before[f]));
                                    if i < f {
                                        assert(old(instance).children()[i].key() != old(instance).children()[f].key());
                                    } else {
                                        assert(old(instance).children()[f].key() != old(instance).children()[i].key());
                                    }
                                }
                            }
                        }
                    }
                    let child = match self.instantiate(Some(&*instance), element, container) {
                        Ok(child) => child,
                        Err(error) => {
                            return Err(error);
                        },
                    };
                    let ghost added = child;
                    instance.memory.add_edge(child);
                    marks.push(true);
                    proof {
                        assert(instance.children() == now.push(added));
                        lemma_owned_by_push(now, added);
                        self.lemma_extends(middle, start);
                        self.buffer.lemma_counter();
                        lemma_accounts_append(
                            owned_by(before),
                            owned_by(now),
                            added.owned(),
                            middle.since(start),
                            self.since(middle),
                            start.counter() as int,
                            middle.counter() as int,
                            self.counter() as int,
                        );
                        origin = origin.push(t as int);
                        place = place.push(now.len() as int);
                        assert(stages[t as int] == middle);
                        if old(instance).unambiguous() {
                            let node = wanted[t as int];
                            assert(!crate::ledger::held(before, node)) by {
                                assert forall|i: int| 0 <= i < before.len() implies !((
                                #[trigger] before[i]).key() == node.key() && before[i].owns() == (node
                                    is Builtin)) by {
                                    assert(now[i].continues(before[i]));
                                }
                            }
                            if node.plain() {
                                assert(self.since(middle) == node.script(container, middle.counter()));
                                assert(self.counter() == middle.counter() + node.builtins());
                                let tr = crate::ledger::trace(
                                    before,
                                    node,
                                    container,
                                    middle.counter(),
                                );
                                assert(tr.0 == self.since(middle));
                            }
                            assert(self.recorded(middle, before, node, container)) by {
                                reveal(Render::recorded);
                            }
                            if plain {
                                let prev = crate::ledger::trace_of(
                                    before,
                                    wanted,
                                    container,
                                    start.counter(),
                                    t as int,
                                );
                                assert(middle.counter() == start.counter() + prev.1);
                                assert(middle.since(start) == prev.0);
                                assert(self.since(start) == middle.since(start) + self.since(middle));
                                assert(self.since(start) == crate::ledger::trace_of(
                                    before,
                                    wanted,
                                    container,
                                    start.counter(),
                                    t + 1,
                                ).0);
                            }
                        }
                        stages = stages.push(*self);
                        if n0 == 0 {
                            let fewer = wanted.take(t as int);
                            let more = wanted.take(t + 1);
                            assert(more.len() == fewer.len() + 1);
                            assert forall|u: int| 0 <= u < more.len() implies (
                            #[trigger] instance.children()[u]).node() == more[u] by {
                                if u < fewer.len() {
                                    assert(now[u].node() == fewer[u]);
                                }
                            }
                            if plain {
                                assert forall|u: int|
                                    0 <= u < more.len() && more[u] is Builtin implies (
                                #[trigger] instance.children()[u]).target() == ContainerID(
                                    (start.counter() + Node::builtins_of(more.take(u))) as usize,
                                ) by {
                                    if u < fewer.len() {
                                        assert(now[u].target() == ContainerID(
                                            (start.counter() + Node::builtins_of(
                                                fewer.take(u),
                                            )) as usize,
                                        ));
                                        assert(fewer.take(u) =~= more.take(u));
                                    } else {
                                        assert(more.take(u) =~= fewer);
                                    }
                                }
                            }
                        }
                        assert forall|j: int|
                            0 <= j < instance.children().len() implies (#[trigger] instance.children()[j]).bounded(
                            self.counter(),
                        ) by {
                            if j < now.len() {
                                now[j].lemma_bounded_grows(middle.counter(), self.counter());
                            }
                        }
                    }
                },
            }
            t = t + 1;
        }
        let ghost now = instance.children();
        let ghost middle = *self;
        let ghost flags = marks@;
        proof {
            assert(wanted.take(count as int) =~= wanted);
            if n0 == 0 {
                crate::ledger::lemma_kept_all(now, flags, flags.len() as int);
                assert(now.take(flags.len() as int) =~= now);
                assert(removals(Seq::<ContainerID>::empty()) =~= Seq::<Operation>::empty());
                assert(middle.since(start) + Seq::<Operation>::empty() =~= middle.since(start));
            }
            if idle {
                assert forall|i: int| 0 <= i < n0 implies flags[i] by {
                    reveal(Instance::within);
                    let u = choose|u: int| 0 <= u < wanted.len() && wanted[u] == before[i].node();
                    let j = place[u];
                    assert(now[j].same(before[j]));
                    assert(now[j].node() == wanted[u]);
                    if j != i {
                        if j < i {
                            assert(old(instance).children()[j].key() != old(instance).children()[i].key());
                        } else {
                            assert(old(instance).children()[i].key() != old(instance).children()[j].key());
                        }
                    }
                }
                crate::ledger::lemma_kept_all(now, flags, flags.len() as int);
                assert(now.take(flags.len() as int) =~= now);
                crate::instance::lemma_owned_by_alike(now, before);
                assert(removals(Seq::<ContainerID>::empty()) =~= Seq::<Operation>::empty());
                assert(middle.ops() + Seq::<Operation>::empty() =~= middle.ops());
            }
        }
        self.sweep(instance, marks);
        proof {
            let n = flags.len() as int;
            let stay = instance.children();
            let gone = released(now, flags, n);
            assert(now.take(n) =~= now);
            self.buffer.lemma_counter();
            assert forall|id: ContainerID|
                #![trigger tally(owned_by(now), id)]
                tally(owned_by(now), id) == tally(owned_by(stay), id) + tally(gone, id) by {
                lemma_kept_owned(now, flags, n, id);
            }
            assert forall|id: ContainerID| #[trigger] gone.contains(id) implies id.0 < start.counter()
                && owned_by(before).contains(id) by {
                let i = lemma_released_whose(now, flags, n, id);
                assert(now[i] == before[i]);
                before[i].lemma_bounded_owned(start.counter(), id);
                lemma_owned_by_has(before, i, id);
            }
            lemma_accounts_sweep(
                owned_by(before),
                owned_by(now),
                owned_by(stay),
                gone,
                middle.since(start),
                start.counter() as int,
                middle.counter() as int,
            );
            assert(self.since(start) =~= middle.since(start) + removals(gone));
            assert forall|j: int| 0 <= j < stay.len() implies {
                &&& (#[trigger] stay[j]).settled()
                &&& instance.holds(&stay[j])
                &&& stay[j].bounded(self.counter())
            } by {
                let i = lemma_kept_from(now, flags, n, j);
                assert(now[i].settled());
            }
            lemma_kept_distinct(now, flags, n);
            assert(instance.within(wanted)) by {
                reveal(Instance::within);
                assert forall|j: int| 0 <= j < stay.len() implies exists|u: int|
                    0 <= u < wanted.len() && wanted[u] == (#[trigger] stay[j]).node() by {
                    let i = lemma_kept_from(now, flags, n, j);
                    assert(wanted[origin[i]] == now[i].node());
                }
            }
            assert(instance.covers(wanted)) by {
                reveal(Instance::covers);
                assert forall|u: int| 0 <= u < wanted.len() implies exists|j: int|
                    0 <= j < stay.len() && (#[trigger] wanted[u]) == stay[j].node() by {
                    let j = lemma_kept_has(now, flags, n, place[u]);
                    assert(stay[j] == now[place[u]]);
                }
            }
            if old(instance).unambiguous() {
                assert forall|i: int| 0 <= i < before.len() implies flags[i] == crate::ledger::asked(
                    wanted,
                    (#[trigger] before[i]).key(),
                    before[i].owns(),
                ) by {
                    assert(now[i].continues(before[i]));
                    if flags[i] {
                        assert(wanted[origin[i]].key() == now[i].key());
                        assert((wanted[origin[i]] is Builtin) == before[i].owns());
                    }
                    if crate::ledger::asked(wanted, before[i].key(), before[i].owns()) {
                        let u = choose|u: int|
                            0 <= u < wanted.len() && (#[trigger] wanted[u]).key() == before[i].key()
                                && (wanted[u] is Builtin) == before[i].owns();
                        let j = place[u];
                        assert(now[j].key() == before[i].key());
                        if j >= n0 {
                            assert(now[i].key() == now[j].key());
                            assert(before[i].owns() != now[j].owns());
                        } else if j != i {
                            assert(now[j].key() == before[j].key());
                            if j < i {
                                assert(old(instance).children()[j].key() != old(instance).children()[i].key());
                            } else {
                                assert(old(instance).children()[i].key() != old(instance).children()[j].key());
                            }
                        }
                    }
                }
                crate::ledger::lemma_released_outgoing(before, now, flags, wanted, n);
                assert(self.otherwise(middle));
                assert(stages.last() == middle);
                assert(self.staged(start, stages, before, wanted, container));
                if plain {
                    assert(self.since(start) == middle.since(start) + removals(
                        crate::ledger::outgoing(before, wanted, before.len() as int),
                    ));
                }
                assert(middle.extends(start));
                let asks = |child: Instance<C>| crate::ledger::asked(wanted, child.key(), child.owns());
                assert(instance.keeps(before, asks)) by {
                    reveal(Instance::keeps);
                    assert forall|a: int, b: int|
                        #![trigger before[a], before[b]]
                        0 <= a <= b < before.len() && asks(before[a]) && asks(
                            before[b],
                        ) implies exists|j: int, k: int|
                        #![trigger instance.children()[j], instance.children()[k]]
                        0 <= j <= k < instance.children().len() && (a < b ==> j < k)
                            && instance.children()[j].continues(before[a])
                            && instance.children()[k].continues(before[b]) by {
                        assert(flags[a] && flags[b]);
                        lemma_kept_rank(now, flags, n, a);
                        lemma_kept_rank(now, flags, n, b);
                        lemma_kept_rank(now, flags, b, a);
                        let j = kept(now, flags, a).len() as int;
                        let k = kept(now, flags, b).len() as int;
                        assert(stay[j] == now[a]);
                        assert(stay[k] == now[b]);
                        assert(now[a].continues(before[a]));
                        assert(now[b].continues(before[b]));
                        assert(instance.children()[j].continues(before[a]));
                        assert(instance.children()[k].continues(before[b]));
                    }
                }
            }
        }
        Ok(())
    }

    /// Records that a container made from `builtin` is to be mounted into
    /// `parent`, and writes the id of the new container into the cell that
    /// `reference` names, if it names one. Fails, and does nothing, when
    /// the container ids are used up.
    pub fn mount(&mut self, parent: ContainerID, builtin: Builtin, reference: Option<Reference>) -> (result:
        Result<ContainerID, RenderError>)
        ensures
            result is Err <==> old(self).counter() == usize::MAX,
            result matches Err(error) ==> error == RenderError::Exhausted && *final(self) == *old(self),
            result matches Ok(id) ==> {
                &&& id == ContainerID(old(self).counter() as usize)
                &&& final(self).counter() == old(self).counter() + 1
                &&& final(self).ops() == old(self).ops().push(Operation::Mount(id, parent, builtin))
                &&& final(self).references() == (match reference {
                    Some(cell) => if cell.0 < old(self).references().len() {
                        old(self).references().update(cell.0 as int, Some(id))
                    } else {
                        old(self).references()
                    },
                    None => old(self).references(),
                })
                &&& final(self).queued() == old(self).queued()
                &&& final(self).pending() == old(self).pending()
                &&& final(self).limit() == old(self).limit()
                &&& final(self).identities() == old(self).identities()
            },
    {
        if self.buffer.exhausted() {
            return Err(RenderError::Exhausted);
        }
        proof {
            self.buffer.lemma_counter();
        }
        let id = self.buffer.mount(parent, builtin);
        match reference {
            Some(cell) => {
                self.cells.replace(cell, id);
            },
            None => {},
        }
        Ok(id)
    }

    /// Makes the instance for `element` below `parent` and renders it. A
    /// builtin is mounted into `in_container` first, and its reference cell,
    /// if it has one, receives the new id; its instance targets the new
    /// container, every other instance `in_container`.
    fn instantiate<C: Component>(
        &mut self,
        parent: Option<&Instance<C>>,
        element: Element<C>,
        in_container: ContainerID,
    ) -> (result: Result<Instance<C>, RenderError>)
        requires
            element@.renderable(),
            parent matches Some(p) ==> p.below() <= old(self).limit() && in_container == p.target(),
            in_container.0 < old(self).counter(),
        ensures
            final(self).advanced(*old(self)),
            result matches Ok(instance) ==> {
                &&& final(self).extends(*old(self))
                &&& instance.node() == element@
                &&& (!(element@ is Component) ==> instance.lined_up(
                    element@.edges(),
                    if element@.plain() {
                        Some(
                            old(self).counter() + (if element@ is Builtin {
                                1nat
                            } else {
                                0nat
                            }),
                        )
                    } else {
                        None
                    },
                ))
                &&& (element@ matches Node::Builtin { builtin, .. } ==> final(self).since(
                    *old(self),
                ).len() > 0 && final(self).since(*old(self))[0] == Operation::Mount(
                    ContainerID(old(self).counter() as usize),
                    in_container,
                    builtin,
                ))
                &&& instance.target() == (if element@ is Builtin {
                    ContainerID(old(self).counter() as usize)
                } else {
                    in_container
                })
                &&& instance.id() == Link(old(self).identities() as u64)
                &&& (parent matches Some(p) ==> p.holds(&instance))
                &&& (parent.is_none() ==> instance.depth() == 0 && instance.ambient() == Map::<
                    u64,
                    u64,
                >::empty())
                &&& instance.settled()
                &&& instance.bounded(final(self).counter())
                &&& accounts(
                    Seq::<ContainerID>::empty(),
                    instance.owned(),
                    final(self).since(*old(self)),
                )
            },
            element@.plain() ==> final(self).owed(
                *old(self),
                failure(result),
                element@.builtins(),
                element@.instances(),
                true,
            ),
            element@.plain() ==> (result matches Ok(instance) ==> final(self).since(*old(self))
                == element@.script(in_container, old(self).counter()) && instance.owned()
                == element@.holdings(old(self).counter()) && final(self).references()
                == element@.inscribed(old(self).references(), old(self).counter())),
        decreases room(old(self).limit(), parent), element@.height(), 3nat,
    {
        let ghost start = *self;
        proof {
            element@.lemma_edges();
            self.buffer.lemma_counter();
            match element@ {
                Node::Builtin { children, .. } => {
                    Node::lemma_script_one(
                        *children,
                        ContainerID(self.counter() as usize),
                        self.counter() + 1,
                    );
                    Node::lemma_holdings_one(*children, self.counter() + 1);

                },
                Node::Context { children, .. } => {
                    Node::lemma_script_one(*children, in_container, self.counter());
                    Node::lemma_holdings_one(*children, self.counter());

                },
                _ => {},
            }
        }
        let container = match &element {
            Element::Builtin { builtin, reference, .. } => {
                match self.mount(in_container, *builtin, *reference) {
                    Ok(id) => id,
                    Err(error) => {
                        return Err(error);
                    },
                }
            },
            _ => in_container,
        };
        if self.links == u64::MAX {
            return Err(RenderError::Exhausted);
        }
        let link = Link(self.links);
        self.links = self.links + 1;
        let mut instance = Instance::new(link, parent, element, container);
        let ghost middle = *self;
        let ghost made = instance;
        proof {
            self.buffer.lemma_counter();
            assert(owned_by(made.children()) =~= Seq::<ContainerID>::empty());
        }
        match self.rerender(&mut instance) {
            Ok(()) => {},
            Err(error) => {
                return Err(error);
            },
        }
        proof {
            self.buffer.lemma_counter();
            let d = self.since(middle);
            assert(self.since(start) =~= middle.since(start) + d);
            if element@ is Builtin {
                let first = middle.since(start)[0];
                assert(middle.since(start) =~= seq![first]);
                crate::ledger::lemma_accounts_mount(
                    container,
                    first,
                    owned_by(instance.children()),
                    d,
                    start.counter() as int,
                    self.counter() as int,
                );
            } else {
                assert(middle.since(start) =~= Seq::<Operation>::empty());
                assert(self.since(start) =~= d);
            }
            if element@.plain() {
                assert(made.depth() <= middle.limit());
                assert(owned_by(instance.children()) == Node::holdings_of(
                    element@.edges(),
                    middle.counter(),
                ));
                match element@ {
                    Node::Builtin { children, .. } => {
                        assert(element@.edges() =~= seq![*children]);
                        Node::lemma_inscribed(
                            seq![*children],
                            0,
                            middle.references(),
                            middle.counter(),
                        );
                    },
                    Node::Context { children, .. } => {
                        assert(element@.edges() =~= seq![*children]);
                        Node::lemma_inscribed(
                            seq![*children],
                            0,
                            middle.references(),
                            middle.counter(),
                        );
                    },
                    _ => {},
                }
            }
        }
        Ok(instance)
    }

    /// Renders `element` for the first time, below `parent` where one is
    /// given, into `in_container`, and returns its instance.
    pub fn render<C: Component>(
        &mut self,
        parent: Option<&Instance<C>>,
        element: Element<C>,
        in_container: ContainerID,
    ) -> (result: Result<Instance<C>, RenderError>)
        requires
            parent matches Some(p) ==> p.below() <= old(self).limit() && in_container == p.target(),
            in_container.0 < old(self).counter(),
        ensures
            final(self).advanced(*old(self)),
            !element@.renderable() ==> result == Err::<Instance<C>, RenderError>(
                RenderError::Invalid,
            ) && *final(self) == *old(self),
            result matches Ok(instance) ==> {
                &&& final(self).extends(*old(self))
                &&& instance.node() == element@
                &&& (!(element@ is Component) ==> instance.lined_up(
                    element@.edges(),
                    if element@.plain() {
                        Some(
                            old(self).counter() + (if element@ is Builtin {
                                1nat
                            } else {
                                0nat
                            }),
                        )
                    } else {
                        None
                    },
                ))
                &&& (element@ matches Node::Builtin { builtin, .. } ==> final(self).since(
                    *old(self),
                ).len() > 0 && final(self).since(*old(self))[0] == Operation::Mount(
                    ContainerID(old(self).counter() as usize),
                    in_container,
                    builtin,
                ))
                &&& instance.target() == (if element@ is Builtin {
                    ContainerID(old(self).counter() as usize)
                } else {
                    in_container
                })
                &&& instance.id() == Link(old(self).identities() as u64)
                &&& (parent matches Some(p) ==> p.holds(&instance))
                &&& (parent.is_none() ==> instance.depth() == 0 && instance.ambient() == Map::<
                    u64,
                    u64,
                >::empty())
                &&& instance.settled()
                &&& instance.bounded(final(self).counter())
                &&& accounts(
                    Seq::<ContainerID>::empty(),
                    instance.owned(),
                    final(self).since(*old(self)),
                )
            },
            element@.renderable() && element@.plain() ==> final(self).owed(
                *old(self),
                failure(result),
                element@.builtins(),
                element@.instances(),
                true,
            ),
            element@.renderable() && element@.plain() ==> (result matches Ok(instance) ==> final(self).since(*old(self)) == element@.script(in_container, old(self).counter())
                && instance.owned() == element@.holdings(old(self).counter()) && final(self).references() == element@.inscribed(old(self).references(), old(self).counter())),
    {
        if !element.is_renderable() {
            return Err(RenderError::Invalid);
        }
        self.instantiate(parent, element, in_container)
    }

    /// Brings `instance` and everything below it into line with the
    /// element that the instance stands for.
    pub fn rerender<C: Component>(&mut self, instance: &mut Instance<C>) -> (result: Result<
        (),
        RenderError,
    >)
        requires
            old(instance).prepared(),
            old(instance).bounded(old(self).counter()),
        ensures
            final(self).passed(*old(self), *old(instance), *final(instance), failure(result)),
        decreases old(self).limit() - old(instance).depth(), old(instance).node().height(), 2nat,
    {
        if instance.level > self.depth {
            return Err(RenderError::Depth);
        }
        let element = instance.memory.element.duplicate();
        match element {
            Element::Builtin { children, .. } => self.rerender_builtin(instance, *children),
            Element::Component { component, children, .. } => self.rerender_component(
                instance,
                component,
                *children,
            ),
            Element::Context { value, children, .. } => self.rerender_context(
                instance,
                value,
                *children,
            ),
            Element::Fragment { elements, .. } => {
                proof {
                    lemma_fragment(&element);
                }
                self.rerender_fragment(instance, elements)
            },
            Element::String(_) => Err(RenderError::Invalid),
        }
    }
}

} // verus!
