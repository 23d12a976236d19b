//! The renderer's entry points: the first render of a tree, the work that
//! the bus hands out afterwards, and the end of a tree.

use crate::bus::{Bus, Task};
use crate::compositor::{
    fresh, mounted, tally, unmounted, Command, Compositor, ContainerID, Operation,
};
use crate::element::{Element, Node};
use crate::instance::{lemma_owned_by_has, lemma_owned_by_update, owned_by, Instance, Link, Slot};
use crate::ledger::{accounts, lemma_accounts_nothing, lemma_accounts_replace, removals};
use crate::manager::{Component, State};
use crate::reference::Cells;
use crate::render::{failure, Render, RenderError, Renderer};
use vstd::prelude::*;

verus! {

/// What one turn of the bus did.
#[derive(Clone, Copy, Debug, PartialEq, Eq, Hash, Structural)]
pub enum Outcome {
    /// Nothing waited.
    Idle,
    /// The task named an instance that is gone. Nothing was done.
    Stale,
    /// The instance that the task named was rendered again, and the pass
    /// was committed.
    Rendered,
    /// The task is an asynchronous one: the caller is to run `task` for the
    /// instance `link`.
    Spawn { link: Link, task: u64 },
    /// The pass for the task stopped. Nothing was committed, and the tree
    /// is as it was before the pass.
    Failed(RenderError),
}

impl Render {
    /// Whether the pass from `start` to `self` over the tree `before`,
    /// which it left as `after`, was the pass over the instance that
    /// `path` leads to, begun at that instance as `begun`: the instance as
    /// it was but for its slots, on which `store` was carried out.
    pub open spec fn passed_at<C>(
        &self,
        start: Render,
        before: Instance<C>,
        after: Instance<C>,
        path: Seq<int>,
        begun: Instance<C>,
        store: Option<(usize, u64)>,
        failure: Option<RenderError>,
    ) -> bool {
        &&& before.leads(path)
        &&& after.leads(path)
        &&& begun.same(before.at(path))
        &&& begun.bound() == before.at(path).bound()
        &&& begun.children() == before.at(path).children()
        &&& begun.slots() == crate::instance::stored(before.at(path).slots(), store)
        &&& self.passed(start, begun, after.at(path), failure)
    }

    /// Renders again the instance that `link` names, which is `instance`
    /// or stands below it: the first such instance, parents before
    /// children and siblings in order. Before that `store` is carried out:
    /// the value is put into the state slot of that position, if the
    /// instance has a state slot there.
    pub fn rerender_at<C: Component>(
        &mut self,
        instance: &mut Instance<C>,
        link: Link,
        store: Option<(usize, u64)>,
    ) -> (result: Result<(), RenderError>)
        requires
            old(instance).has(link),
            old(instance).settled(),
            old(instance).bounded(old(self).counter()),
        ensures
            final(self).advanced(*old(self)),
            result is Ok ==> {
                &&& final(self).extends(*old(self))
                &&& final(instance).same(*old(instance))
                &&& final(instance).settled()
                &&& final(instance).bounded(final(self).counter())
                &&& accounts(
                    owned_by(old(instance).children()),
                    owned_by(final(instance).children()),
                    final(self).since(*old(self)),
                )
            },
            old(instance).node().plain() && old(instance).depth() <= old(self).limit()
                ==> result is Ok && final(self).quiet(*old(self)),
            old(instance).id() == link && !(old(instance).node() is Component) && result is Ok
                ==> final(instance).slots() == crate::instance::stored(old(instance).slots(), store),
            exists|path: Seq<int>, begun: Instance<C>|
                #![trigger final(self).passed_at(*old(self), *old(instance), *final(instance), path, begun, store, failure(result))]
                old(instance).at(path).id() == link && final(self).passed_at(
                    *old(self),
                    *old(instance),
                    *final(instance),
                    path,
                    begun,
                    store,
                    failure(result),
                ),
        decreases *old(instance),
    {
        if instance.link == link {
            match store {
                Some((slot, value)) => {
                    instance.store(slot, value);
                },
                None => {},
            }
            proof {
                instance.lemma_settled_alike(*old(instance));
            }
            let ghost begun = *instance;
            let result = self.rerender(instance);
            proof {
                let path = Seq::<int>::empty();
                assert(old(instance).at(path) == *old(instance));
                assert(instance.at(path) == *instance);
                assert(self.passed_at(
                    *old(self),
                    *old(instance),
                    *instance,
                    path,
                    begun,
                    store,
                    failure(result),
                ));
            }
            return result;
        }
        let n = instance.memory.edges.len();
        let mut i: usize = 0;
        while i < n
            invariant
                i <= n,
                n == instance.children().len(),
                *instance == *old(instance),
                *self == *old(self),
                instance.id() != link,
                instance.has(link),
                instance.settled(),
                instance.bounded(self.counter()),
                forall|j: int| 0 <= j < i ==> !(#[trigger] instance.children()[j]).has(link),
            decreases n - i,
        {
            if instance.memory.edges[i].contains(link) {
                let ghost before = *instance;
                let ghost start = *self;
                proof {
                    if instance.node().plain() {
                        instance.lemma_plain_below(i as int);
                    }
                }
                let child = &mut instance.memory.edges[i];
                let ghost was = *child;
                let result = self.rerender_at(child, link, store);
                let ghost next = *child;
                proof {
                    assert(instance.children() == before.children().update(i as int, next));
                    let (inner, begun) = choose|inner: Seq<int>, begun: Instance<C>|
                        #![trigger self.passed_at(start, was, next, inner, begun, store, failure(result))]
                        was.at(inner).id() == link && self.passed_at(
                            start,
                            was,
                            next,
                            inner,
                            begun,
                            store,
                            failure(result),
                        );
                    let path = seq![i as int] + inner;
                    assert(path.drop_first() =~= inner);
                    assert(path[0] == i);
                    assert(old(instance).at(path) == was.at(inner));
                    assert(instance.at(path) == next.at(inner));
                    assert(old(instance).leads(path));
                    assert(instance.leads(path));
                    assert(self.passed_at(
                        start,
                        *old(instance),
                        *instance,
                        path,
                        begun,
                        store,
                        failure(result),
                    ));
                }
                match result {
                    Ok(()) => {},
                    Err(error) => {
                        return Err(error);
                    },
                }
                proof {
                    self.buffer.lemma_counter();
                    start.lemma_extends_self();
                    let list = before.children();
                    lemma_accounts_nothing(owned_by(list));
                    assert forall|id: ContainerID| #[trigger] was.owned().contains(id) implies id.0
                        < start.counter() && owned_by(list).contains(id) by {
                        was.lemma_bounded_owned(start.counter(), id);
                        lemma_owned_by_has(list, i as int, id);
                    }
                    assert forall|id: ContainerID|
                        #![trigger tally(owned_by(instance.children()), id)]
                        tally(owned_by(instance.children()), id) + tally(was.owned(), id) == tally(
                            owned_by(list),
                            id,
                        ) + tally(next.owned(), id) by {
                        lemma_owned_by_update(list, i as int, next, id);
                    }
                    assert forall|id: ContainerID| #[trigger] owned_by(was.children()).contains(
                        id,
                    ) implies was.owned().contains(id) by {
                        let k = choose|k: int|
                            0 <= k < owned_by(was.children()).len() && owned_by(was.children())[k]
                                == id;
                        assert(was.owned()[k] == id);
                    }
                    assert forall|id: ContainerID| #[trigger] owned_by(next.children()).contains(
                        id,
                    ) implies next.owned().contains(id) by {
                        let k = choose|k: int|
                            0 <= k < owned_by(next.children()).len() && owned_by(
                                next.children(),
                            )[k] == id;
                        assert(next.owned()[k] == id);
                    }
                    assert forall|id: ContainerID|
                        #![trigger tally(was.owned(), id)]
                        tally(was.owned(), id) + tally(owned_by(next.children()), id) == tally(
                            next.owned(),
                            id,
                        ) + tally(owned_by(was.children()), id) by {
                        crate::compositor::lemma_tally_push(
                            owned_by(was.children()),
                            was.target(),
                            id,
                        );
                        crate::compositor::lemma_tally_push(
                            owned_by(next.children()),
                            next.target(),
                            id,
                        );
                    }
                    assert(start.since(start) =~= Seq::<Operation>::empty());
                    lemma_accounts_replace(
                        owned_by(list),
                        owned_by(list),
                        owned_by(instance.children()),
                        was.owned(),
                        next.owned(),
                        owned_by(was.children()),
                        owned_by(next.children()),
                        start.since(start),
                        self.since(start),
                        start.counter() as int,
                        start.counter() as int,
                        self.counter() as int,
                    );
                    assert(start.since(start) + self.since(start) =~= self.since(start));
                    assert forall|j: int| 0 <= j < instance.children().len() implies {
                        &&& (#[trigger] instance.children()[j]).settled()
                        &&& instance.children()[j].bounded(self.counter())
                        &&& instance.holds(&instance.children()[j])
                        &&& instance.children()[j].node() == before.children()[j].node()
                    } by {
                        if j != i {
                            before.children()[j].lemma_bounded_grows(
                                start.counter(),
                                self.counter(),
                            );
                        }
                    }
                    instance.lemma_realises_alike(before, before.wanted());
                    if instance.node() is Component {
                        assert(crate::instance::keys_and_nodes(instance.children())
                            =~= crate::instance::keys_and_nodes(before.children()));
                    }
                    assert(instance.wanted() == before.wanted());
                    assert(instance.unambiguous());
                    instance.lemma_settled();
                }
                return Ok(());
            }
            i = i + 1;
        }
        proof {
            assert(false);
        }
        Ok(())
    }
}

impl Renderer {
    /// A renderer on `compositor` and `bus` that lets components nest
    /// `depth` deep. It has no reference cell and has handed out no
    /// identity.
    pub fn new(compositor: Compositor, bus: Bus, depth: usize) -> (renderer: Renderer)
        ensures
            renderer.counter() == compositor.counter(),
            renderer.pending() == compositor.pending(),
            renderer.queued() == bus@,
            renderer.references() == Seq::<Option<ContainerID>>::empty(),
            renderer.identities() == 0,
            renderer.limit() == depth,
    {
        Renderer { compositor, bus, cells: Cells::new(), links: 0, depth }
    }

    /// Starts a pass. The renderer's parts move into the pass; until the
    /// pass is over the renderer holds nothing.
    fn begin(&mut self) -> (render: Render)
        ensures
            render.ops() == Seq::<Operation>::empty(),
            render.counter() == old(self).counter(),
            render.pending() == old(self).pending(),
            render.queued() == old(self).queued(),
            render.references() == old(self).references(),
            render.identities() == old(self).identities(),
            render.limit() == old(self).limit(),
    {
        let mut renderer = Renderer::new(Compositor::new(), Bus::new(), self.depth);
        core::mem::swap(self, &mut renderer);
        Render::new(renderer)
    }

    /// How many container ids have been handed out.
    pub fn issued(&self) -> (count: usize)
        ensures
            count == self.counter(),
    {
        self.compositor.issued()
    }

    /// Whether every container id has been handed out.
    pub fn exhausted(&self) -> (full: bool)
        ensures
            full == (self.counter() == usize::MAX),
    {
        self.compositor.exhausted()
    }

    /// Gives an id to a container that the host made itself, such as the
    /// root that a tree is rendered into. `None` when the ids are used up.
    pub fn track(&mut self) -> (id: Option<ContainerID>)
        ensures
            final(self).pending() == old(self).pending(),
            final(self).queued() == old(self).queued(),
            final(self).references() == old(self).references(),
            final(self).identities() == old(self).identities(),
            final(self).limit() == old(self).limit(),
            old(self).counter() < usize::MAX ==> id == Some(ContainerID(old(self).counter() as usize))
                && final(self).counter() == old(self).counter() + 1,
            old(self).counter() == usize::MAX ==> id.is_none() && final(self).counter() == old(self).counter(),
    {
        self.compositor.track()
    }

    /// Takes the oldest committed batch for the host to apply.
    pub fn take(&mut self) -> (batch: Option<Vec<Command>>)
        ensures
            final(self).counter() == old(self).counter(),
            final(self).queued() == old(self).queued(),
            final(self).references() == old(self).references(),
            final(self).identities() == old(self).identities(),
            final(self).limit() == old(self).limit(),
            old(self).pending().len() == 0 ==> batch.is_none() && final(self).pending() == old(self).pending(),
            old(self).pending().len() > 0 ==> batch.is_some() && crate::compositor::operations(
                batch.unwrap()@,
            ) == old(self).pending()[0] && final(self).pending() == old(self).pending().drop_first(),
    {
        self.compositor.take()
    }

    /// Queues `task` behind everything that waits on the bus.
    pub fn queue_retain(&mut self, task: Task)
        ensures
            final(self).queued() == old(self).queued().push(task),
            final(self).counter() == old(self).counter(),
            final(self).pending() == old(self).pending(),
            final(self).references() == old(self).references(),
            final(self).identities() == old(self).identities(),
            final(self).limit() == old(self).limit(),
    {
        self.bus.queue_retain(task);
    }

    /// Asks for `instance` to be rendered again: the pass is queued on the
    /// bus and runs when the bus reaches it.
    pub fn rerender<C>(&mut self, instance: &Instance<C>)
        ensures
            final(self).queued() == old(self).queued().push(Task::Rerender { link: instance.id() }),
            final(self).counter() == old(self).counter(),
            final(self).pending() == old(self).pending(),
            final(self).references() == old(self).references(),
            final(self).identities() == old(self).identities(),
            final(self).limit() == old(self).limit(),
    {
        self.bus.queue_retain(Task::Rerender { link: instance.link });
    }

    /// Renders `element` for the first time into `container` and commits
    /// the pass.
    pub fn render<C: Component>(&mut self, element: Element<C>, container: ContainerID) -> (result:
        Result<Instance<C>, RenderError>)
        requires
            container.0 < old(self).counter(),
        ensures
            final(self).limit() == old(self).limit(),
            !element@.renderable() ==> result == Err::<Instance<C>, RenderError>(
                RenderError::Invalid,
            ) && final(self).counter() == old(self).counter() && final(self).identities() == old(self).identities() && final(self).queued() == old(self).queued(),
            result is Err ==> final(self).pending() == old(self).pending(),
            result matches Ok(instance) ==> {
                &&& final(self).pending().len() == old(self).pending().len() + 1
                &&& final(self).pending().drop_last() == old(self).pending()
                &&& mounted(final(self).pending().last()) == fresh(
                    old(self).counter() as int,
                    final(self).counter() as int,
                )
                &&& accounts(
                    Seq::<ContainerID>::empty(),
                    instance.owned(),
                    final(self).pending().last(),
                )
                &&& instance.owned().no_duplicates()
                &&& old(self).counter() <= final(self).counter()
                &&& old(self).queued().is_prefix_of(final(self).queued())
                &&& instance.node() == element@
                &&& (!(element@ is Component) ==> instance.lined_up(
                    element@.edges(),
                    if element@.plain() {
                        Some(
                            old(self).counter() + (if element@ is Builtin {
                                1nat
                            } else {
                                0nat
                            }),
                        )
                    } else {
                        None
                    },
                ))
                &&& (element@ matches Node::Builtin { builtin, .. } ==> final(self).pending().last().len() > 0 && final(self).pending().last()[0]
                    == Operation::Mount(
                    ContainerID(old(self).counter() as usize),
                    container,
                    builtin,
                ))
                &&& instance.target() == (if element@ is Builtin {
                    ContainerID(old(self).counter() as usize)
                } else {
                    container
                })
                &&& instance.id() == Link(old(self).identities() as u64)
                &&& instance.depth() == 0
                &&& instance.ambient() == Map::<u64, u64>::empty()
                &&& instance.settled()
                &&& instance.bounded(final(self).counter())
            },
            element@.renderable() && element@.plain() ==> {
                &&& result is Ok <==> old(self).counter() + element@.builtins() <= usize::MAX && old(self).identities() + element@.instances() <= u64::MAX
                &&& result matches Err(error) ==> error == RenderError::Exhausted
                &&& result is Ok ==> final(self).counter() == old(self).counter()
                    + element@.builtins() && final(self).identities() == old(self).identities()
                    + element@.instances() && final(self).pending().last() == element@.script(
                    container,
                    old(self).counter(),
                )
                &&& result matches Ok(instance) ==> instance.owned() == element@.holdings(
                    old(self).counter(),
                ) && final(self).references() == element@.inscribed(
                    old(self).references(),
                    old(self).counter(),
                )
            },
    {
        let mut render = self.begin();
        let ghost start = render;
        let none: Option<&Instance<C>> = None;
        proof {
            render.buffer.lemma_counter();
        }
        match render.render(none, element, container) {
            Ok(instance) => {
                proof {
                    assert(render.since(start) =~= render.ops());
                    render.buffer.lemma_counter();
                    crate::laws::law_render_balances(
                        instance.owned(),
                        render.ops(),
                        start.counter() as int,
                        render.counter() as int,
                    );
                    crate::laws::law_balanced_owns_once(
                        instance.owned(),
                        render.ops(),
                        render.counter() as int,
                    );
                }
                *self = render.commit();
                proof {
                    assert(self.pending().drop_last() =~= old(self).pending());
                }
                Ok(instance)
            },
            Err(error) => {
                *self = render.abandon();
                Err(error)
            },
        }
    }

    /// Gives `instance` the element `element` in place of the one it stands
    /// for, brings the tree into line with it, and commits the pass. The
    /// instance is kept, with the container that it targets. An element
    /// that cannot be rendered is refused, and so is one that is a builtin
    /// where the instance owns no container, or is none where it owns one:
    /// nothing changes then. Where the pass fails nothing is committed, and
    /// the tree and the reference cells are put back as they were.
    pub fn update<C: Component>(&mut self, instance: &mut Instance<C>, element: Element<C>) -> (result:
        Result<(), RenderError>)
        requires
            old(instance).settled(),
            old(instance).bounded(old(self).counter()),
        ensures
            final(self).limit() == old(self).limit(),
            old(self).queued().is_prefix_of(final(self).queued()),
            !element@.renderable() || (element@ is Builtin) != old(instance).owns() ==> result == Err::<
                (),
                RenderError,
            >(RenderError::Invalid) && *final(self) == *old(self) && *final(instance) == *old(instance),
            result is Err ==> {
                &&& final(self).pending() == old(self).pending()
                &&& final(self).references() == old(self).references()
                &&& final(instance).alike(*old(instance))
                &&& final(instance).owned() == old(instance).owned()
                &&& final(instance).settled()
                &&& final(instance).bounded(final(self).counter())
            },
            result is Ok ==> {
                &&& final(self).pending().len() == old(self).pending().len() + 1
                &&& final(self).pending().drop_last() == old(self).pending()
                &&& mounted(final(self).pending().last()) == fresh(
                    old(self).counter() as int,
                    final(self).counter() as int,
                )
                &&& accounts(
                    owned_by(old(instance).children()),
                    owned_by(final(instance).children()),
                    final(self).pending().last(),
                )
                &&& accounts(
                    old(instance).owned(),
                    final(instance).owned(),
                    final(self).pending().last(),
                )
                &&& (old(instance).owned().no_duplicates() ==> final(instance).owned().no_duplicates())
                &&& old(self).counter() <= final(self).counter()
                &&& final(instance).owns() == old(instance).owns()
                &&& final(instance).node() == element@
                &&& final(instance).id() == old(instance).id()
                &&& final(instance).target() == old(instance).target()
                &&& final(instance).settled()
                &&& final(instance).bounded(final(self).counter())
            },
            element@.renderable() && (element@ is Builtin) == old(instance).owns() && element@.plain() && old(instance).depth() <= old(self).limit()
                ==> {
                &&& result matches Err(error) ==> error == RenderError::Exhausted
                &&& old(self).counter() + Node::builtins_of(element@.edges()) <= usize::MAX && old(self).identities() + Node::instances_of(element@.edges()) <= u64::MAX ==> result is Ok
                &&& result is Ok ==> final(self).counter() <= old(self).counter()
                    + Node::builtins_of(element@.edges())
                &&& result is Ok ==> final(self).pending().last() == crate::ledger::trace_of(
                    old(instance).children(),
                    element@.edges(),
                    old(instance).target(),
                    old(self).counter(),
                    element@.edges().len() as int,
                ).0 + removals(
                    crate::ledger::outgoing(
                        old(instance).children(),
                        element@.edges(),
                        old(instance).children().len() as int,
                    ),
                )
            },
            element@ == old(instance).node() && element@.plain() && old(instance).depth() <= old(self).limit() ==> result is Ok && final(self).pending().last()
                == Seq::<Operation>::empty() && final(self).counter() == old(self).counter()
                && owned_by(final(instance).children()) == owned_by(old(instance).children()),
    {
        if !element.is_renderable() || instance.is_builtin() != element.is_builtin() {
            proof {
                assert(self.queued().is_prefix_of(self.queued()));
                instance.lemma_alike_self();
            }
            return Err(RenderError::Invalid);
        }
        let tree = instance.duplicate();
        let cells = self.cells.duplicate();
        match instance.update(element) {
            Ok(_) => {},
            Err(_) => {
                proof {
                    assert(false);
                }
                return Err(RenderError::Invalid);
            },
        }
        let mut render = self.begin();
        let ghost start = render;
        proof {
            if element@ == old(instance).node() {
                instance.lemma_settled_alike(*old(instance));
            }
        }
        match render.rerender(instance) {
            Ok(()) => {
                proof {
                    assert(render.since(start) =~= render.ops());
                    if instance.owns() {
                        crate::ledger::lemma_accounts_owner(
                            owned_by(old(instance).children()),
                            owned_by(instance.children()),
                            render.ops(),
                            instance.target(),
                        );
                    }
                    if old(instance).owned().no_duplicates() {
                        render.buffer.lemma_counter();
                        assert forall|id: ContainerID| #[trigger] old(instance).owned().contains(
                            id,
                        ) implies id.0 < start.counter() by {
                            old(instance).lemma_bounded_owned(start.counter(), id);
                        }
                        crate::laws::law_unmounts_are_the_lost_builtins(
                            old(instance).owned(),
                            instance.owned(),
                            render.ops(),
                            start.counter() as int,
                            render.counter() as int,
                        );
                    }
                }
                *self = render.commit();
                proof {
                    assert(self.pending().drop_last() =~= old(self).pending());
                }
                Ok(())
            },
            Err(error) => {
                *self = render.abandon();
                self.cells = cells;
                *instance = tree;
                proof {
                    instance.lemma_alike(*old(instance), old(self).counter(), instance.id());
                    instance.lemma_bounded_grows(old(self).counter(), self.counter());
                }
                Err(error)
            },
        }
    }

    /// Removes the tree `instance` from the interface and commits the
    /// removals: the containers that the tree owns are unmounted, those of
    /// children before that of their parent, and siblings in order.
    pub fn unmount<C>(&mut self, instance: Instance<C>)
        ensures
            final(self).pending() == old(self).pending().push(removals(instance.owned())),
            final(self).counter() == old(self).counter(),
            final(self).queued() == old(self).queued(),
            final(self).references() == old(self).references(),
            final(self).identities() == old(self).identities(),
            final(self).limit() == old(self).limit(),
    {
        let mut render = self.begin();
        render.unmount(&instance);
        proof {
            assert(Seq::<Operation>::empty() + removals(instance.owned()) =~= removals(
                instance.owned(),
            ));
        }
        *self = render.commit();
    }

    /// One turn of the bus: takes the task that has waited longest and
    /// carries it out on the tree `root`. An asynchronous task is handed
    /// back for the caller to run. Any other task names an instance: if the
    /// instance is gone the task is dropped; else the instance is rendered
    /// again, after the value of an update has been stored, and the pass is
    /// committed. Where the pass fails nothing is committed, and the tree
    /// and the reference cells are put back as they were: the next turn
    /// finds them in order.
    pub fn process<C: Component>(&mut self, root: &mut Instance<C>) -> (outcome: Outcome)
        requires
            old(root).settled(),
            old(root).bounded(old(self).counter()),
        ensures
            final(self).limit() == old(self).limit(),
            outcome is Idle <==> old(self).queued().len() == 0,
            !(outcome is Idle) ==> old(self).queued().drop_first().is_prefix_of(final(self).queued()),
            outcome is Idle || outcome is Spawn || outcome is Stale ==> final(self).pending() == old(self).pending() && final(self).counter() == old(self).counter() && *final(root) == *old(root),
            outcome is Idle ==> final(self).queued() == old(self).queued(),
            outcome is Spawn || outcome is Stale ==> final(self).queued() == old(self).queued().drop_first(),
            outcome matches Outcome::Spawn { link, task } ==> old(self).queued()[0] == (Task::Async {
                link,
                task,
            }),
            outcome is Stale ==> !(old(self).queued()[0] is Async) && !old(root).has(
                old(self).queued()[0].target(),
            ),
            outcome is Failed ==> {
                &&& final(self).pending() == old(self).pending()
                &&& final(self).references() == old(self).references()
                &&& final(root).alike(*old(root))
                &&& final(root).owned() == old(root).owned()
            },
            final(root).settled(),
            final(root).bounded(final(self).counter()),
            old(self).counter() <= final(self).counter(),
            old(root).owned().no_duplicates() ==> final(root).owned().no_duplicates(),
            old(self).queued().len() > 0 && !(old(self).queued()[0] is Async) && !old(root).has(
                old(self).queued()[0].target(),
            ) ==> outcome is Stale,
            old(self).queued().len() > 0 ==> (old(self).queued()[0] matches Task::Async {
                link,
                task,
            } ==> outcome == (Outcome::Spawn { link, task })),
            old(self).queued().len() > 0 && !(old(self).queued()[0] is Async) && old(root).has(
                old(self).queued()[0].target(),
            ) ==> outcome is Rendered || outcome is Failed,
            old(root).node().plain() && old(root).depth() <= old(self).limit() ==> !(outcome
                is Failed) && (outcome is Rendered ==> final(self).pending().last() == Seq::<Operation>::empty() && final(self).counter() == old(self).counter()),
            outcome is Rendered ==> {
                &&& !(old(self).queued()[0] is Async)
                &&& old(root).has(old(self).queued()[0].target())
                &&& final(self).pending().len() == old(self).pending().len() + 1
                &&& final(self).pending().drop_last() == old(self).pending()
                &&& mounted(final(self).pending().last()) == fresh(
                    old(self).counter() as int,
                    final(self).counter() as int,
                )
                &&& final(root).same(*old(root))
                &&& final(root).settled()
                &&& final(root).bounded(final(self).counter())
                &&& accounts(
                    owned_by(old(root).children()),
                    owned_by(final(root).children()),
                    final(self).pending().last(),
                )
                &&& accounts(old(root).owned(), final(root).owned(), final(self).pending().last())
            },
    {
        let task = match self.bus.next() {
            Some(task) => task,
            None => {
                return Outcome::Idle;
            },
        };
        let (link, store) = match task {
            Task::Async { link, task } => {
                proof {
                    assert(self.queued().is_prefix_of(self.queued()));
                }
                return Outcome::Spawn { link, task };
            },
            Task::Update { link, slot, value } => (link, Some((slot, value))),
            Task::Rerender { link } => (link, None),
        };
        if !root.contains(link) {
            proof {
                assert(self.queued().is_prefix_of(self.queued()));
            }
            return Outcome::Stale;
        }
        let tree = root.duplicate();
        let cells = self.cells.duplicate();
        let mut render = self.begin();
        let ghost start = render;
        match render.rerender_at(root, link, store) {
            Ok(()) => {
                proof {
                    assert(render.since(start) =~= render.ops());
                    if root.owns() {
                        crate::ledger::lemma_accounts_owner(
                            owned_by(old(root).children()),
                            owned_by(root.children()),
                            render.ops(),
                            root.target(),
                        );
                    }
                    if old(root).owned().no_duplicates() {
                        render.buffer.lemma_counter();
                        assert forall|id: ContainerID| #[trigger] old(root).owned().contains(
                            id,
                        ) implies id.0 < start.counter() by {
                            old(root).lemma_bounded_owned(start.counter(), id);
                        }
                        crate::laws::law_unmounts_are_the_lost_builtins(
                            old(root).owned(),
                            root.owned(),
                            render.ops(),
                            start.counter() as int,
                            render.counter() as int,
                        );
                    }
                }
                *self = render.commit();
                proof {
                    assert(self.pending().drop_last() =~= old(self).pending());
                }
                Outcome::Rendered
            },
            Err(error) => {
                *self = render.abandon();
                self.cells = cells;
                *root = tree;
                proof {
                    root.lemma_alike(*old(root), old(self).counter(), link);
                    root.lemma_bounded_grows(old(self).counter(), self.counter());
                }
                Outcome::Failed(error)
            },
        }
    }
}

/// A rendered tree together with its renderer. Whoever holds it keeps the
/// interface alive; `dispose` takes the interface down.
pub struct Disposable<C> {
    pub(crate) renderer: Renderer,
    pub(crate) instance: Instance<C>,
    pub(crate) history: Ghost<Seq<Operation>>,
}

impl<C: Component> Disposable<C> {
    /// The renderer.
    pub open(crate) spec fn engine(&self) -> Renderer {
        self.renderer
    }

    /// The root of the tree.
    pub open(crate) spec fn root(&self) -> Instance<C> {
        self.instance
    }

    /// Every operation that was committed for the tree, in the order in
    /// which the passes recorded them.
    pub open(crate) spec fn history(&self) -> Seq<Operation> {
        self.history@
    }

    /// Whether the tree is as a finished pass leaves it, all its containers
    /// were handed out by the renderer's compositor, it owns none of them
    /// twice, and its books are in order: of the containers that were ever
    /// mounted for it, it owns exactly those that were not unmounted since.
    pub open spec fn wf(&self) -> bool {
        &&& self.root().settled()
        &&& self.root().bounded(self.engine().counter())
        &&& self.root().owned().no_duplicates()
        &&& crate::laws::balanced(
            self.root().owned(),
            self.history(),
            self.engine().counter() as int,
        )
    }

    /// The root of the tree.
    pub fn instance(&self) -> (instance: &Instance<C>)
        ensures
            *instance == self.root(),
    {
        &self.instance
    }

    /// The renderer.
    pub fn renderer(&self) -> (renderer: &Renderer)
        ensures
            *renderer == self.engine(),
    {
        &self.renderer
    }

    /// Queues `task` behind everything that waits on the bus.
    pub fn queue_retain(&mut self, task: Task)
        ensures
            final(self).engine().queued() == old(self).engine().queued().push(task),
            final(self).engine().counter() == old(self).engine().counter(),
            final(self).engine().pending() == old(self).engine().pending(),
            final(self).engine().limit() == old(self).engine().limit(),
            final(self).root() == old(self).root(),
            final(self).history() == old(self).history(),
    {
        self.renderer.queue_retain(task);
    }

    /// Invokes the setter of `state` with `value`: the update is queued on
    /// the bus.
    pub fn set_state(&mut self, state: State, value: u64)
        ensures
            final(self).engine().queued() == old(self).engine().queued().push(
                Task::Update { link: state.link, slot: state.slot, value },
            ),
            final(self).engine().counter() == old(self).engine().counter(),
            final(self).engine().pending() == old(self).engine().pending(),
            final(self).engine().limit() == old(self).engine().limit(),
            final(self).root() == old(self).root(),
            final(self).history() == old(self).history(),
    {
        self.renderer.queue_retain(Task::Update { link: state.link, slot: state.slot, value });
    }

    /// One turn of the bus on the tree.
    pub fn process(&mut self) -> (outcome: Outcome)
        requires
            old(self).wf(),
        ensures
            outcome is Idle <==> old(self).engine().queued().len() == 0,
            !(outcome is Idle) ==> old(self).engine().queued().drop_first().is_prefix_of(
                final(self).engine().queued(),
            ),
            outcome is Failed ==> final(self).engine().pending() == old(self).engine().pending()
                && final(self).engine().references() == old(self).engine().references()
                && final(self).root().alike(old(self).root()) && final(self).root().owned() == old(self).root().owned(),
            old(self).engine().queued().len() > 0 && !(old(self).engine().queued()[0] is Async)
                && !old(self).root().has(old(self).engine().queued()[0].target()) ==> outcome
                is Stale,
            old(self).engine().queued().len() > 0 ==> (old(self).engine().queued()[0] matches Task::Async {
                link,
                task,
            } ==> outcome == (Outcome::Spawn { link, task })),
            old(self).engine().queued().len() > 0 && !(old(self).engine().queued()[0] is Async)
                && old(self).root().has(old(self).engine().queued()[0].target()) ==> outcome
                is Rendered || outcome is Failed,
            old(self).root().node().plain() && old(self).root().depth() <= old(self).engine().limit()
                ==> !(outcome is Failed) && (outcome is Rendered ==> final(self).engine().pending().last()
                == Seq::<Operation>::empty() && final(self).engine().counter() == old(self).engine().counter()),
            final(self).engine().limit() == old(self).engine().limit(),
            final(self).wf(),
            final(self).history() == (if outcome is Rendered {
                old(self).history() + final(self).engine().pending().last()
            } else {
                old(self).history()
            }),
            outcome is Idle || outcome is Spawn || outcome is Stale ==> final(self).engine().pending()
                == old(self).engine().pending() && final(self).root() == old(self).root(),
            outcome matches Outcome::Spawn { link, task } ==> old(self).engine().queued()[0] == (
            Task::Async { link, task }),
            outcome is Stale ==> !(old(self).engine().queued()[0] is Async) && !old(self).root().has(
                old(self).engine().queued()[0].target(),
            ),
            outcome is Rendered ==> {
                &&& !(old(self).engine().queued()[0] is Async)
                &&& old(self).root().has(old(self).engine().queued()[0].target())
                &&& final(self).engine().pending().len() == old(self).engine().pending().len() + 1
                &&& final(self).engine().pending().drop_last() == old(self).engine().pending()
                &&& mounted(final(self).engine().pending().last()) == fresh(
                    old(self).engine().counter() as int,
                    final(self).engine().counter() as int,
                )
                &&& final(self).root().same(old(self).root())
                &&& accounts(
                    owned_by(old(self).root().children()),
                    owned_by(final(self).root().children()),
                    final(self).engine().pending().last(),
                )
                &&& accounts(
                    old(self).root().owned(),
                    final(self).root().owned(),
                    final(self).engine().pending().last(),
                )
            },
    {
        let ghost lo = self.renderer.counter() as int;
        let ghost before = self.instance.owned();
        proof {
            self.renderer.compositor.lemma_counter();
        }
        let outcome = self.renderer.process(&mut self.instance);
        let ghost history = match outcome {
            Outcome::Rendered => self.history@ + self.renderer.pending().last(),
            _ => self.history@,
        };
        proof {
            self.renderer.compositor.lemma_counter();
            let hi = self.renderer.counter() as int;
            match outcome {
                Outcome::Rendered => {
                    crate::laws::law_pass_balances(
                        before,
                        self.instance.owned(),
                        self.history@,
                        self.renderer.pending().last(),
                        lo,
                        hi,
                    );
                },
                _ => {
                    crate::laws::law_failed_pass_keeps_the_books(before, self.history@, lo, hi);
                },
            }
        }
        self.history = Ghost(history);
        outcome
    }

    /// Takes the oldest committed batch for the host to apply.
    pub fn take(&mut self) -> (batch: Option<Vec<Command>>)
        ensures
            final(self).root() == old(self).root(),
            final(self).history() == old(self).history(),
            final(self).engine().counter() == old(self).engine().counter(),
            final(self).engine().queued() == old(self).engine().queued(),
            old(self).engine().pending().len() == 0 ==> batch.is_none() && final(self).engine().pending() == old(self).engine().pending(),
            old(self).engine().pending().len() > 0 ==> batch.is_some()
                && crate::compositor::operations(batch.unwrap()@) == old(self).engine().pending()[0] && final(self).engine().pending() == old(self).engine().pending().drop_first(),
    {
        self.renderer.take()
    }

    /// Takes the interface down: every container that the tree owns is
    /// unmounted, those of children before that of their parent and
    /// siblings in order, the removals are committed as one batch, and the
    /// renderer is given back. With that batch every container that was
    /// ever mounted for the tree has been unmounted, exactly once.
    pub fn dispose(self) -> (renderer: Renderer)
        ensures
            renderer.pending() == self.engine().pending().push(removals(self.root().owned())),
            renderer.counter() == self.engine().counter(),
            renderer.queued() == self.engine().queued(),
            renderer.limit() == self.engine().limit(),
            self.wf() ==> forall|id: ContainerID|
                #![trigger tally(mounted(self.history() + removals(self.root().owned())), id)]
                tally(unmounted(self.history() + removals(self.root().owned())), id) == tally(
                    mounted(self.history() + removals(self.root().owned())),
                    id,
                ) && tally(mounted(self.history() + removals(self.root().owned())), id) <= 1,
    {
        proof {
            if self.wf() {
                crate::laws::law_dispose_unmounts_all(
                    self.root().owned(),
                    self.history(),
                    self.engine().counter() as int,
                );
            }
        }
        let Disposable { renderer, instance, history: _ } = self;
        let mut renderer = renderer;
        renderer.unmount(instance);
        renderer
    }
}

/// Renders `element` into `container`, a container that `compositor` has
/// handed out, with a new renderer on `compositor` and `bus` that lets
/// components nest `depth` deep. The result holds the tree and the
/// renderer.
pub fn render<C: Component>(
    element: Element<C>,
    container: ContainerID,
    compositor: Compositor,
    bus: Bus,
    depth: usize,
) -> (result: Result<Disposable<C>, RenderError>)
    requires
        container.0 < compositor.counter(),
    ensures
        !element@.renderable() ==> result is Err && result->Err_0 == RenderError::Invalid,
        result matches Ok(disposable) ==> {
            &&& disposable.wf()
            &&& disposable.history() == disposable.engine().pending().last()
            &&& disposable.engine().limit() == depth
            &&& disposable.engine().pending().len() == compositor.pending().len() + 1
            &&& disposable.engine().pending().drop_last() == compositor.pending()
            &&& mounted(disposable.engine().pending().last()) == fresh(
                compositor.counter() as int,
                disposable.engine().counter() as int,
            )
            &&& accounts(
                Seq::<ContainerID>::empty(),
                disposable.root().owned(),
                disposable.engine().pending().last(),
            )
            &&& bus@.is_prefix_of(disposable.engine().queued())
            &&& disposable.root().node() == element@
            &&& disposable.root().target() == (if element@ is Builtin {
                ContainerID(compositor.counter() as usize)
            } else {
                container
            })
            &&& disposable.root().id() == Link(0)
            &&& disposable.root().depth() == 0
        },
        element@.renderable() && element@.plain() ==> {
            &&& result is Ok <==> compositor.counter() + element@.builtins() <= usize::MAX
                && element@.instances() <= u64::MAX
            &&& result matches Err(error) ==> error == RenderError::Exhausted
            &&& result matches Ok(disposable) ==> disposable.engine().counter()
                == compositor.counter() + element@.builtins() && disposable.engine().pending().last()
                == element@.script(container, compositor.counter()) && disposable.root().owned()
                == element@.holdings(compositor.counter())
        },
{
    let mut renderer = Renderer::new(compositor, bus, depth);
    proof {
        compositor.lemma_counter();
    }
    match renderer.render(element, container) {
        Ok(instance) => {
            proof {
                renderer.compositor.lemma_counter();
                crate::laws::law_render_balances(
                    instance.owned(),
                    renderer.pending().last(),
                    compositor.counter() as int,
                    renderer.counter() as int,
                );
            }
            let history = Ghost(renderer.pending().last());
            Ok(Disposable { renderer, instance, history })
        },
        Err(error) => Err(error),
    }
}

} // verus!
