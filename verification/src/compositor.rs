//! The sink of a pass: a buffer that records commands in order, and the
//! compositor that hands out container ids and queues whole buffers for the
//! host to apply.

use crate::builtin::{Builtin, Mutator};
use std::collections::VecDeque;
use vstd::prelude::*;

verus! {

/// An id for one native container. Ids are handed out by a [`Compositor`]
/// and are never reused.
#[derive(Clone, Copy, Debug, PartialEq, Eq, Hash, Structural)]
pub struct ContainerID(pub usize);

/// One recorded instruction for the host.
#[derive(Debug, PartialEq, Eq)]
pub enum Command {
    /// Create the container `0` from the descriptor and attach it to the
    /// container `1`.
    Mount(ContainerID, ContainerID, Builtin),
    /// Apply a change to the listed containers.
    Mutate(Vec<ContainerID>, Mutator),
    /// Detach and destroy a container.
    Unmount(ContainerID),
}

/// The mathematical value of a [`Command`].
pub enum Operation {
    Mount(ContainerID, ContainerID, Builtin),
    Mutate(Seq<ContainerID>, Mutator),
    Unmount(ContainerID),
}

impl View for Command {
    type V = Operation;

    /// The command with its list of ids as a sequence.
    open spec fn view(&self) -> Operation {
        match self {
            Command::Mount(id, parent, builtin) => Operation::Mount(*id, *parent, *builtin),
            Command::Mutate(ids, mutator) => Operation::Mutate(ids@, *mutator),
            Command::Unmount(id) => Operation::Unmount(*id),
        }
    }
}

/// The operations that a sequence of commands stands for.
pub open spec fn operations(commands: Seq<Command>) -> Seq<Operation> {
    Seq::new(commands.len(), |i: int| commands[i]@)
}

/// The ids that `ops` mounts, in the order of the commands.
pub open spec fn mounted(ops: Seq<Operation>) -> Seq<ContainerID>
    decreases ops.len(),
{
    if ops.len() == 0 {
        Seq::empty()
    } else {
        match ops.last() {
            Operation::Mount(id, _, _) => mounted(ops.drop_last()).push(id),
            _ => mounted(ops.drop_last()),
        }
    }
}

/// The ids that `ops` unmounts, in the order of the commands.
pub open spec fn unmounted(ops: Seq<Operation>) -> Seq<ContainerID>
    decreases ops.len(),
{
    if ops.len() == 0 {
        Seq::empty()
    } else {
        match ops.last() {
            Operation::Unmount(id) => unmounted(ops.drop_last()).push(id),
            _ => unmounted(ops.drop_last()),
        }
    }
}

/// The ids `from`, `from + 1`, ... below `to`, as the compositor hands them
/// out.
pub open spec fn fresh(from: int, to: int) -> Seq<ContainerID> {
    Seq::new(
        if to >= from { (to - from) as nat } else { 0 },
        |i: int| ContainerID((from + i) as usize),
    )
}

/// How often `id` occurs in `ids`.
pub open spec fn tally(ids: Seq<ContainerID>, id: ContainerID) -> nat {
    ids.to_multiset().count(id)
}

/// Nothing occurs in the empty sequence.
pub proof fn lemma_tally_empty(id: ContainerID)
    ensures
        tally(Seq::<ContainerID>::empty(), id) == 0,
{
    broadcast use {vstd::seq_lib::group_to_multiset_ensures, vstd::multiset::group_multiset_axioms};

    let none = Seq::<ContainerID>::empty();
    assert(none.to_multiset().len() == 0);
    assert(tally(none, id) <= none.to_multiset().len());
}

/// What occurs in a concatenation occurs in its parts, as often.
pub proof fn lemma_tally_concat(a: Seq<ContainerID>, b: Seq<ContainerID>, id: ContainerID)
    ensures
        tally(a + b, id) == tally(a, id) + tally(b, id),
{
    broadcast use vstd::multiset::group_multiset_axioms;

    vstd::seq_lib::lemma_multiset_commutative(a, b);
    assert((a + b).to_multiset().count(id) == a.to_multiset().add(b.to_multiset()).count(id));
}

/// One more element occurs once more.
pub proof fn lemma_tally_push(a: Seq<ContainerID>, last: ContainerID, id: ContainerID)
    ensures
        tally(a.push(last), id) == tally(a, id) + (if last == id {
            1nat
        } else {
            0nat
        }),
{
    broadcast use {vstd::seq_lib::group_to_multiset_ensures, vstd::multiset::group_multiset_axioms};

    assert(a.push(last).to_multiset() =~= a.to_multiset().insert(last));
    assert(a.to_multiset().insert(last) =~= a.to_multiset().add(vstd::multiset::Multiset::singleton(last)));
}

/// What a sequence contains is what occurs in it.
pub proof fn lemma_tally_contains(a: Seq<ContainerID>, id: ContainerID)
    ensures
        a.contains(id) <==> tally(a, id) > 0,
{
    broadcast use vstd::seq_lib::group_to_multiset_ensures;

    assert(a.to_multiset().len() == a.len());
}

/// `mounted` distributes over concatenation.
pub proof fn lemma_mounted_concat(a: Seq<Operation>, b: Seq<Operation>)
    ensures
        mounted(a + b) == mounted(a) + mounted(b),
    decreases b.len(),
{
    if b.len() == 0 {
        assert(a + b =~= a);
        assert(mounted(a) + mounted(b) =~= mounted(a));
    } else {
        lemma_mounted_concat(a, b.drop_last());
        assert((a + b).drop_last() =~= a + b.drop_last());
        assert((a + b).last() == b.last());
        match b.last() {
            Operation::Mount(id, _, _) => {
                assert(mounted(a + b) =~= mounted(a) + mounted(b));
            },
            _ => {},
        }
    }
}

/// `unmounted` distributes over concatenation.
pub proof fn lemma_unmounted_concat(a: Seq<Operation>, b: Seq<Operation>)
    ensures
        unmounted(a + b) == unmounted(a) + unmounted(b),
    decreases b.len(),
{
    if b.len() == 0 {
        assert(a + b =~= a);
        assert(unmounted(a) + unmounted(b) =~= unmounted(a));
    } else {
        lemma_unmounted_concat(a, b.drop_last());
        assert((a + b).drop_last() =~= a + b.drop_last());
        assert((a + b).last() == b.last());
        match b.last() {
            Operation::Unmount(id) => {
                assert(unmounted(a + b) =~= unmounted(a) + unmounted(b));
            },
            _ => {},
        }
    }
}

/// Hands out container ids and holds the committed buffers until the host
/// applies them, oldest first.
pub struct Compositor {
    counter: usize,
    queue: VecDeque<Vec<Command>>,
}

impl Compositor {
    /// The id that the next container gets.
    pub closed spec fn counter(&self) -> nat {
        self.counter as nat
    }

    /// The committed buffers that the host has not taken yet, oldest first.
    pub closed spec fn pending(&self) -> Seq<Seq<Operation>> {
        Seq::new(self.queue@.len(), |i: int| operations(self.queue@[i]@))
    }

    /// The counter is a machine integer.
    pub proof fn lemma_counter(&self)
        ensures
            self.counter() <= usize::MAX,
    {
    }

    /// A compositor that has handed out no id and holds no buffer.
    pub fn new() -> (compositor: Compositor)
        ensures
            compositor.counter() == 0,
            compositor.pending() == Seq::<Seq<Operation>>::empty(),
    {
        let compositor = Compositor { counter: 0, queue: VecDeque::new() };
        assert(compositor.pending() =~= Seq::<Seq<Operation>>::empty());
        compositor
    }

    /// A compositor for a host that has handed out the ids below `counter`
    /// itself. It holds no buffer.
    pub fn resume(counter: usize) -> (compositor: Compositor)
        ensures
            compositor.counter() == counter,
            compositor.pending() == Seq::<Seq<Operation>>::empty(),
    {
        let compositor = Compositor { counter, queue: VecDeque::new() };
        assert(compositor.pending() =~= Seq::<Seq<Operation>>::empty());
        compositor
    }

    /// How many ids have been handed out: the ids below this number are
    /// taken.
    pub fn issued(&self) -> (count: usize)
        ensures
            count == self.counter(),
    {
        self.counter
    }

    /// Whether every id has been handed out.
    pub fn exhausted(&self) -> (full: bool)
        ensures
            full == (self.counter() == usize::MAX),
    {
        self.counter == usize::MAX
    }

    /// Hands out the next id.
    pub fn next_id(&mut self) -> (id: ContainerID)
        requires
            old(self).counter() < usize::MAX,
        ensures
            id == ContainerID(old(self).counter() as usize),
            final(self).counter() == old(self).counter() + 1,
            final(self).pending() == old(self).pending(),
    {
        let id = self.counter;
        self.counter = id + 1;
        ContainerID(id)
    }

    /// Gives an id to a container that the host created by itself, such as
    /// the root that a tree is rendered into. `None` when the ids are used
    /// up; the compositor is then unchanged.
    pub fn track(&mut self) -> (id: Option<ContainerID>)
        ensures
            final(self).pending() == old(self).pending(),
            old(self).counter() < usize::MAX ==> id == Some(ContainerID(old(self).counter() as usize))
                && final(self).counter() == old(self).counter() + 1,
            old(self).counter() == usize::MAX ==> id.is_none() && final(self).counter() == old(self).counter(),
    {
        if self.exhausted() {
            None
        } else {
            Some(self.next_id())
        }
    }

    /// Starts a buffer. The buffer holds the compositor until it is
    /// committed, so no second buffer can be open beside it.
    pub fn buffer(self) -> (buffer: CommandBuffer)
        ensures
            buffer@ == Seq::<Operation>::empty(),
            buffer.counter() == self.counter(),
            buffer.pending() == self.pending(),
    {
        let buffer = CommandBuffer { compositor: self, commands: Vec::new() };
        assert(buffer@ =~= Seq::<Operation>::empty());
        buffer
    }

    /// Takes the oldest committed buffer for the host to apply, command by
    /// command and in order. `None` when nothing is waiting.
    pub fn take(&mut self) -> (batch: Option<Vec<Command>>)
        ensures
            final(self).counter() == old(self).counter(),
            old(self).pending().len() == 0 ==> batch.is_none() && final(self).pending() == old(self).pending(),
            old(self).pending().len() > 0 ==> batch.is_some() && operations(batch.unwrap()@) == old(self).pending()[0] && final(self).pending() == old(self).pending().drop_first(),
    {
        let batch = self.queue.pop_front();
        proof {
            if old(self).queue@.len() > 0 {
                assert(self.pending() =~= old(self).pending().drop_first());
            } else {
                assert(self.pending() =~= old(self).pending());
            }
        }
        batch
    }
}

/// The commands of one pass, in the order in which they were recorded.
pub struct CommandBuffer {
    compositor: Compositor,
    commands: Vec<Command>,
}

impl View for CommandBuffer {
    type V = Seq<Operation>;

    /// The operations recorded so far, in order.
    closed spec fn view(&self) -> Seq<Operation> {
        operations(self.commands@)
    }
}

impl CommandBuffer {
    /// The id that the next mounted container gets.
    pub closed spec fn counter(&self) -> nat {
        self.compositor.counter()
    }

    /// The buffers committed before this one that the host has not taken.
    pub closed spec fn pending(&self) -> Seq<Seq<Operation>> {
        self.compositor.pending()
    }

    /// The counter is a machine integer.
    pub proof fn lemma_counter(&self)
        ensures
            self.counter() <= usize::MAX,
    {
    }

    /// Whether no further container can be mounted.
    pub fn exhausted(&self) -> (full: bool)
        ensures
            full == (self.counter() == usize::MAX),
    {
        self.compositor.exhausted()
    }

    /// Records that a new container, made from `builtin`, is to be attached
    /// to `parent_id`, and returns the id by which later commands name it.
    pub fn mount(&mut self, parent_id: ContainerID, builtin: Builtin) -> (id: ContainerID)
        requires
            old(self).counter() < usize::MAX,
        ensures
            id == ContainerID(old(self).counter() as usize),
            final(self).counter() == old(self).counter() + 1,
            final(self).pending() == old(self).pending(),
            final(self)@ == old(self)@.push(Operation::Mount(id, parent_id, builtin)),
    {
        let id = self.compositor.next_id();
        self.commands.push(Command::Mount(id, parent_id, builtin));
        assert(self@ =~= old(self)@.push(Operation::Mount(id, parent_id, builtin)));
        id
    }

    /// Records a change to the containers `ids`.
    pub fn mutate(&mut self, ids: &[ContainerID], mutator: Mutator)
        ensures
            final(self).counter() == old(self).counter(),
            final(self).pending() == old(self).pending(),
            final(self)@ == old(self)@.push(Operation::Mutate(ids@, mutator)),
    {
        let mut owned: Vec<ContainerID> = Vec::new();
        let mut i: usize = 0;
        while i < ids.len()
            invariant
                i <= ids@.len(),
                owned@ == ids@.take(i as int),
            decreases ids@.len() - i,
        {
            owned.push(ids[i]);
            assert(ids@.take(i as int).push(ids@[i as int]) =~= ids@.take(i + 1));
            i = i + 1;
        }
        assert(ids@.take(ids@.len() as int) =~= ids@);
        self.commands.push(Command::Mutate(owned, mutator));
        assert(self@ =~= old(self)@.push(Operation::Mutate(ids@, mutator)));
    }

    /// Records the removal of the container `id`.
    pub fn unmount(&mut self, id: ContainerID)
        ensures
            final(self).counter() == old(self).counter(),
            final(self).pending() == old(self).pending(),
            final(self)@ == old(self)@.push(Operation::Unmount(id)),
    {
        self.commands.push(Command::Unmount(id));
        assert(self@ =~= old(self)@.push(Operation::Unmount(id)));
    }

    /// Records a layout pass: a change to no container in particular whose
    /// mutator recomputes the roots.
    pub fn layout(&mut self)
        ensures
            final(self).counter() == old(self).counter(),
            final(self).pending() == old(self).pending(),
            final(self)@ == old(self)@.push(
                Operation::Mutate(Seq::<ContainerID>::empty(), Mutator::Layout),
            ),
    {
        let none: Vec<ContainerID> = Vec::new();
        self.mutate(none.as_slice(), Mutator::Layout);
    }

    /// Gives the compositor back without committing: the recorded commands
    /// are dropped. The ids that the buffer handed out stay handed out.
    pub fn discard(self) -> (compositor: Compositor)
        ensures
            compositor.counter() == self.counter(),
            compositor.pending() == self.pending(),
    {
        self.compositor
    }

    /// Hands the recorded commands to the compositor as one batch, behind
    /// every batch committed earlier, and gives the compositor back.
    pub fn commit(self) -> (compositor: Compositor)
        ensures
            compositor.counter() == self.counter(),
            compositor.pending() == self.pending().push(self@),
    {
        let CommandBuffer { compositor, commands } = self;
        let mut compositor = compositor;
        let ghost before = compositor.pending();
        compositor.queue.push_back(commands);
        assert(compositor.pending() =~= before.push(self@));
        compositor
    }
}

} // verus!
