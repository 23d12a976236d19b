//! What holds of every pass, proved from the contracts of the pass.
//!
//! The laws speak of a pass through what its contract states: the
//! containers that the tree owned `before` the pass and owns `after` it, the
//! operations `delta` that the pass recorded, and the counter of the
//! compositor at the start (`lo`) and the end (`hi`) of the pass. A pass
//! that went well mounts exactly the ids from `lo` up to `hi`, and `delta`
//! accounts for the step from `before` to `after`.

use crate::bus::Task;
use crate::compositor::{
    fresh, lemma_mounted_concat, lemma_tally_concat, lemma_tally_contains, lemma_tally_empty,
    lemma_unmounted_concat, mounted, tally, unmounted, ContainerID, Operation,
};
use crate::instance::{lemma_owned_by_has, owned_by, Instance};
use crate::ledger::{accounts, lemma_fresh_within, lemma_removals, removals};
use vstd::prelude::*;

verus! {

/// Ids that were handed out one after the other differ.
pub proof fn lemma_fresh_once(from: int, to: int, id: ContainerID)
    requires
        0 <= from <= to <= usize::MAX,
    ensures
        tally(fresh(from, to), id) == (if from <= id.0 < to {
            1nat
        } else {
            0nat
        }),
    decreases to - from,
{
    if from == to {
        assert(fresh(from, to) =~= Seq::<ContainerID>::empty());
        lemma_tally_empty(id);
    } else {
        lemma_fresh_once(from, to - 1, id);
        let last = ContainerID((to - 1) as usize);
        assert(fresh(from, to) =~= fresh(from, to - 1).push(last));
        crate::compositor::lemma_tally_push(fresh(from, to - 1), last, id);
    }
}

/// A pass mounts as many containers as the counter went up, each once,
/// and they are exactly the containers that the tree owns after the pass
/// and did not own before it: one for each builtin that the pass found
/// new.
pub proof fn law_mounts_are_the_new_builtins(
    before: Seq<ContainerID>,
    after: Seq<ContainerID>,
    delta: Seq<Operation>,
    lo: int,
    hi: int,
)
    requires
        accounts(before, after, delta),
        0 <= lo <= hi <= usize::MAX,
        mounted(delta) == fresh(lo, hi),
        forall|id: ContainerID| #[trigger] before.contains(id) ==> id.0 < lo,
    ensures
        mounted(delta).len() == hi - lo,
        forall|id: ContainerID| #[trigger] tally(mounted(delta), id) <= 1,
        forall|id: ContainerID|
            #[trigger] mounted(delta).contains(id) <==> after.contains(id) && !before.contains(id),
        forall|id: ContainerID|
            !before.contains(id) ==> #[trigger] tally(mounted(delta), id) == tally(after, id),
{
    reveal(accounts);
    assert forall|id: ContainerID| tally(mounted(delta), id) <= 1 by {
        lemma_fresh_once(lo, hi, id);
    }
    assert forall|id: ContainerID|
        !before.contains(id) implies #[trigger] tally(mounted(delta), id) == tally(after, id) by {
        lemma_tally_contains(before, id);
        lemma_tally_contains(unmounted(delta), id);
        assert(tally(after, id) + tally(unmounted(delta), id) == tally(before, id) + tally(
            mounted(delta),
            id,
        ));
    }
    assert forall|id: ContainerID|
        #[trigger] mounted(delta).contains(id) <==> after.contains(id) && !before.contains(id) by {
        lemma_tally_contains(mounted(delta), id);
        lemma_tally_contains(after, id);
        if mounted(delta).contains(id) {
            lemma_fresh_within(lo, hi, id);
        }
        if !before.contains(id) {
            assert(tally(mounted(delta), id) == tally(after, id));
        }
    }
}

/// A pass unmounts exactly the containers that the tree owned before the
/// pass and does not own after it, each once: one for each builtin whose
/// key is gone, those below it included.
pub proof fn law_unmounts_are_the_lost_builtins(
    before: Seq<ContainerID>,
    after: Seq<ContainerID>,
    delta: Seq<Operation>,
    lo: int,
    hi: int,
)
    requires
        accounts(before, after, delta),
        0 <= lo <= hi <= usize::MAX,
        mounted(delta) == fresh(lo, hi),
        forall|id: ContainerID| #[trigger] before.contains(id) ==> id.0 < lo,
        before.no_duplicates(),
    ensures
        forall|id: ContainerID| #[trigger] tally(unmounted(delta), id) <= 1,
        forall|id: ContainerID|
            #[trigger] unmounted(delta).contains(id) <==> before.contains(id) && !after.contains(id),
        after.no_duplicates(),
        forall|id: ContainerID| #[trigger] after.contains(id) ==> id.0 < hi,
{
    reveal(accounts);
    assert forall|id: ContainerID|
        #![trigger tally(unmounted(delta), id)]
        #![trigger tally(after, id)]
        #![trigger unmounted(delta).contains(id)]
        #![trigger after.contains(id)]
        tally(unmounted(delta), id) <= 1 && (unmounted(delta).contains(id) <==> before.contains(id)
            && !after.contains(id)) && tally(after, id) <= 1 && (after.contains(id) ==> id.0 < hi) by {
        lemma_once(before, id);
        lemma_fresh_once(lo, hi, id);
        lemma_tally_contains(before, id);
        lemma_tally_contains(after, id);
        lemma_tally_contains(unmounted(delta), id);
        lemma_tally_contains(mounted(delta), id);
        assert(tally(after, id) + tally(unmounted(delta), id) == tally(before, id) + tally(
            mounted(delta),
            id,
        ));
        if mounted(delta).contains(id) {
            lemma_fresh_within(lo, hi, id);
        }
    }
    lemma_twice(after);
}

/// A pass after which the tree owns what it owned before has mounted and
/// unmounted nothing. So it is with a pass over the elements of the pass
/// before it.
pub proof fn law_same_tree_mounts_nothing(
    before: Seq<ContainerID>,
    after: Seq<ContainerID>,
    delta: Seq<Operation>,
    lo: int,
    hi: int,
)
    requires
        accounts(before, after, delta),
        0 <= lo <= hi <= usize::MAX,
        mounted(delta) == fresh(lo, hi),
        forall|id: ContainerID| #[trigger] before.contains(id) ==> id.0 < lo,
        forall|id: ContainerID| tally(after, id) == tally(before, id),
    ensures
        mounted(delta) == Seq::<ContainerID>::empty(),
        unmounted(delta) == Seq::<ContainerID>::empty(),
        hi == lo,
{
    reveal(accounts);
    if mounted(delta).len() > 0 {
        let id = mounted(delta)[0];
        assert(mounted(delta).contains(id));
        lemma_fresh_within(lo, hi, id);
        lemma_tally_contains(after, id);
        lemma_tally_contains(before, id);
        assert(tally(after, id) == tally(before, id));
        assert(false);
    }
    assert(mounted(delta) =~= Seq::<ContainerID>::empty());
    if unmounted(delta).len() > 0 {
        let id = unmounted(delta)[0];
        assert(unmounted(delta).contains(id));
        lemma_tally_contains(unmounted(delta), id);
        lemma_tally_empty(id);
        assert(tally(after, id) + tally(unmounted(delta), id) == tally(before, id) + tally(
            mounted(delta),
            id,
        ));
        assert(tally(after, id) == tally(before, id));
        assert(false);
    }
    assert(unmounted(delta) =~= Seq::<ContainerID>::empty());
}

/// What occurs in a sequence without duplicates occurs once.
proof fn lemma_once(ids: Seq<ContainerID>, id: ContainerID)
    requires
        ids.no_duplicates(),
    ensures
        tally(ids, id) <= 1,
    decreases ids.len(),
{
    if ids.len() == 0 {
        assert(ids =~= Seq::<ContainerID>::empty());
        lemma_tally_empty(id);
    } else {
        let front = ids.drop_last();
        let last = ids.last();
        assert(ids =~= front.push(last));
        assert(front.no_duplicates());
        lemma_once(front, id);
        crate::compositor::lemma_tally_push(front, last, id);
        lemma_tally_contains(front, id);
        if last == id && front.contains(id) {
            let k = choose|k: int| 0 <= k < front.len() && front[k] == id;
            assert(ids[k] == ids[ids.len() - 1]);
            assert(false);
        }
    }
}

/// A sequence in which nothing occurs twice has no duplicates.
proof fn lemma_twice(ids: Seq<ContainerID>)
    requires
        forall|id: ContainerID| tally(ids, id) <= 1,
    ensures
        ids.no_duplicates(),
    decreases ids.len(),
{
    if ids.len() > 0 {
        let front = ids.drop_last();
        let last = ids.last();
        assert(ids =~= front.push(last));
        assert forall|id: ContainerID| tally(front, id) <= 1 by {
            crate::compositor::lemma_tally_push(front, last, id);
            assert(tally(ids, id) <= 1);
        }
        lemma_twice(front);
        crate::compositor::lemma_tally_push(front, last, last);
        assert(tally(ids, last) <= 1);
        lemma_tally_contains(front, last);
        assert(!front.contains(last));
        assert forall|i: int, j: int| 0 <= i < ids.len() && 0 <= j < ids.len() && i != j implies ids[i]
            != ids[j] by {
            if i < front.len() && j < front.len() {
                assert(front[i] != front[j]);
            } else if i < front.len() {
                assert(front[i] == ids[i]);
                assert(front.contains(ids[i]));
            } else {
                assert(front[j] == ids[j]);
                assert(front.contains(ids[j]));
            }
        }
    }
}

/// Whether the books of a tree are in order: every container that the
/// operations of `history` have mounted is still owned or has been
/// unmounted, never both and never twice, and has an id below `counter`;
/// and nothing is owned or was unmounted that was not mounted.
pub open spec fn balanced(owned: Seq<ContainerID>, history: Seq<Operation>, counter: int) -> bool {
    &&& forall|id: ContainerID|
        #![trigger tally(owned, id)]
        #![trigger tally(mounted(history), id)]
        tally(owned, id) + tally(unmounted(history), id) == tally(mounted(history), id)
    &&& forall|id: ContainerID| #[trigger] tally(mounted(history), id) <= 1
    &&& forall|id: ContainerID| #[trigger] mounted(history).contains(id) ==> id.0 < counter
}

/// The first render of a tree leaves its books in order.
pub proof fn law_render_balances(owned: Seq<ContainerID>, delta: Seq<Operation>, lo: int, hi: int)
    requires
        accounts(Seq::<ContainerID>::empty(), owned, delta),
        0 <= lo <= hi <= usize::MAX,
        mounted(delta) == fresh(lo, hi),
    ensures
        balanced(owned, delta, hi),
{
    reveal(accounts);
    assert forall|id: ContainerID|
        tally(owned, id) + tally(unmounted(delta), id) == tally(mounted(delta), id) && tally(
            mounted(delta),
            id,
        ) <= 1 && (mounted(delta).contains(id) ==> id.0 < hi) by {
        lemma_tally_empty(id);
        lemma_fresh_once(lo, hi, id);
        assert(tally(owned, id) + tally(unmounted(delta), id) == tally(
            Seq::<ContainerID>::empty(),
            id,
        ) + tally(mounted(delta), id));
        if mounted(delta).contains(id) {
            lemma_fresh_within(lo, hi, id);
        }
    }
}

/// A pass over a tree whose books are in order leaves them in order.
pub proof fn law_pass_balances(
    before: Seq<ContainerID>,
    after: Seq<ContainerID>,
    history: Seq<Operation>,
    delta: Seq<Operation>,
    lo: int,
    hi: int,
)
    requires
        balanced(before, history, lo),
        accounts(before, after, delta),
        0 <= lo <= hi <= usize::MAX,
        mounted(delta) == fresh(lo, hi),
    ensures
        balanced(after, history + delta, hi),
{
    reveal(accounts);
    lemma_mounted_concat(history, delta);
    lemma_unmounted_concat(history, delta);
    assert forall|id: ContainerID|
        tally(after, id) + tally(unmounted(history + delta), id) == tally(
            mounted(history + delta),
            id,
        ) && tally(mounted(history + delta), id) <= 1 && (mounted(history + delta).contains(id)
            ==> id.0 < hi) by {
        lemma_tally_concat(mounted(history), mounted(delta), id);
        lemma_tally_concat(unmounted(history), unmounted(delta), id);
        lemma_fresh_once(lo, hi, id);
        lemma_tally_contains(mounted(history), id);
        lemma_tally_contains(mounted(delta), id);
        lemma_tally_contains(mounted(history + delta), id);
        assert(tally(before, id) + tally(unmounted(history), id) == tally(mounted(history), id));
        assert(tally(mounted(history), id) <= 1);
        assert(tally(after, id) + tally(unmounted(delta), id) == tally(before, id) + tally(
            mounted(delta),
            id,
        ));
        if mounted(history).contains(id) {
            assert(id.0 < lo);
        }
        if mounted(delta).contains(id) {
            lemma_fresh_within(lo, hi, id);
        }
    }
}

/// When a tree whose books are in order is taken down, every container that
/// was ever mounted for it has been unmounted, exactly once.
pub proof fn law_dispose_unmounts_all(owned: Seq<ContainerID>, history: Seq<Operation>, counter: int)
    requires
        balanced(owned, history, counter),
    ensures
        forall|id: ContainerID|
            #![trigger tally(mounted(history + removals(owned)), id)]
            tally(unmounted(history + removals(owned)), id) == tally(
                mounted(history + removals(owned)),
                id,
            ) && tally(mounted(history + removals(owned)), id) <= 1,
{
    let last = removals(owned);
    lemma_removals(owned);
    lemma_mounted_concat(history, last);
    lemma_unmounted_concat(history, last);
    assert(mounted(history + last) =~= mounted(history));
    assert forall|id: ContainerID|
        tally(unmounted(history + last), id) == tally(mounted(history + last), id) && tally(
            mounted(history + last),
            id,
        ) <= 1 by {
        lemma_tally_concat(unmounted(history), owned, id);
        assert(tally(owned, id) + tally(unmounted(history), id) == tally(mounted(history), id));
        assert(tally(mounted(history), id) <= 1);
    }
}

/// A tree whose books are in order owns no container twice, and none that
/// was not handed out. So what a pass over such a tree unmounts can be
/// counted: the premises of the law on unmounts hold of it.
pub proof fn law_balanced_owns_once(owned: Seq<ContainerID>, history: Seq<Operation>, counter: int)
    requires
        balanced(owned, history, counter),
    ensures
        owned.no_duplicates(),
        forall|id: ContainerID| #[trigger] owned.contains(id) ==> id.0 < counter,
{
    assert forall|id: ContainerID| tally(owned, id) <= 1 by {
        assert(tally(owned, id) + tally(unmounted(history), id) == tally(mounted(history), id));
        assert(tally(mounted(history), id) <= 1);
    }
    lemma_twice(owned);
    assert forall|id: ContainerID| #[trigger] owned.contains(id) implies id.0 < counter by {
        lemma_tally_contains(owned, id);
        lemma_tally_contains(mounted(history), id);
        assert(tally(owned, id) + tally(unmounted(history), id) == tally(mounted(history), id));
        assert(mounted(history).contains(id));
    }
}

/// A pass that failed leaves the books in order: it has committed nothing
/// and has left the tree owning what it owned; only ids were used up.
pub proof fn law_failed_pass_keeps_the_books(
    owned: Seq<ContainerID>,
    history: Seq<Operation>,
    lo: int,
    hi: int,
)
    requires
        balanced(owned, history, lo),
        lo <= hi,
    ensures
        balanced(owned, history, hi),
{
}

/// Taking a tree down unmounts the container of a builtin behind the
/// containers of all the builtins that stand below it, at whatever depth
/// the two stand: `above` leads from the root to the one builtin, `below`
/// from there on to the other.
pub proof fn law_descendants_before_ancestors<C>(
    root: Instance<C>,
    above: Seq<int>,
    below: Seq<int>,
)
    requires
        root.leads(above),
        root.at(above).leads(below),
        below.len() > 0,
        root.at(above).owns(),
        root.at(above).at(below).owns(),
    ensures
        exists|d: int, a: int|
            0 <= d < a < root.owned().len() && root.owned()[d] == root.at(above).at(below).target()
                && root.owned()[a] == root.at(above).target(),
{
    let upper = root.at(above);
    let lower = upper.at(below);
    let last = lower.owned().len() - 1;
    upper.lemma_owned_piece(below, last);
    let d = upper.offset(below) + last;
    let a = upper.owned().len() - 1;
    assert(upper.owned()[d] == lower.target());
    assert(upper.owned()[a] == upper.target());
    root.lemma_owned_piece(above, d);
    root.lemma_owned_piece(above, a);
    assert(root.owned()[root.offset(above) + d] == lower.target());
    assert(root.owned()[root.offset(above) + a] == upper.target());
}

/// An instance that owns a container gives it up last: unmounting the
/// instance unmounts what its children own first, child by child, and then
/// its own container.
pub proof fn law_children_before_parent<C>(instance: Instance<C>, i: int, id: ContainerID)
    requires
        instance.owns(),
        0 <= i < instance.children().len(),
        instance.children()[i].owned().contains(id),
    ensures
        instance.owned().last() == instance.target(),
        exists|k: int| 0 <= k < instance.owned().len() - 1 && instance.owned()[k] == id,
{
    let below = owned_by(instance.children());
    lemma_owned_by_has(instance.children(), i, id);
    let k = choose|k: int| 0 <= k < below.len() && below[k] == id;
    assert(instance.owned()[k] == id);
}

/// Tasks leave a bus in the order in which they were queued: of two tasks,
/// the one queued first is taken first, whatever waited before them and
/// whatever was queued between and after them.
pub proof fn law_bus_is_first_in_first_out(
    waiting: Seq<Task>,
    first: Task,
    between: Seq<Task>,
    second: Task,
    after: Seq<Task>,
)
    ensures
        ({
            let queue = waiting.push(first) + between.push(second) + after;
            let turn_of_first = waiting.len() as int;
            let turn_of_second = (waiting.len() + 1 + between.len()) as int;
            &&& turn_of_first < turn_of_second
            &&& queue.skip(turn_of_first)[0] == first
            &&& queue.skip(turn_of_second)[0] == second
        }),
{
}

} // verus!
