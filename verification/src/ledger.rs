//! Bookkeeping for passes: what a stretch of operations does to the set of
//! mounted containers, and which children a sweep keeps.

use crate::compositor::{
    fresh, lemma_tally_concat, lemma_tally_contains, lemma_tally_empty, mounted, tally, unmounted,
    ContainerID, Operation,
};
use crate::element::Node;
use crate::instance::{lemma_owned_by_has, lemma_owned_by_push, lemma_owned_by_whose, owned_by, Instance};
use crate::key::Key;
use vstd::prelude::*;

verus! {

/// The operations that unmount `ids`, one after the other.
pub open spec fn removals(ids: Seq<ContainerID>) -> Seq<Operation> {
    Seq::new(ids.len(), |i: int| Operation::Unmount(ids[i]))
}

/// Removals mount nothing and unmount exactly their ids.
pub proof fn lemma_removals(ids: Seq<ContainerID>)
    ensures
        mounted(removals(ids)) == Seq::<ContainerID>::empty(),
        unmounted(removals(ids)) == ids,
    decreases ids.len(),
{
    if ids.len() == 0 {
        assert(unmounted(removals(ids)) =~= ids);
    } else {
        lemma_removals(ids.drop_last());
        assert(removals(ids).drop_last() =~= removals(ids.drop_last()));
        assert(removals(ids).last() == Operation::Unmount(ids.last()));
        assert(unmounted(removals(ids)) =~= ids);
    }
}

/// The removals of two runs of ids, one after the other.
pub proof fn lemma_removals_concat(a: Seq<ContainerID>, b: Seq<ContainerID>)
    ensures
        removals(a + b) == removals(a) + removals(b),
{
    assert(removals(a + b) =~= removals(a) + removals(b));
}

/// Ids handed out in two stretches, one after the other.
pub proof fn lemma_fresh_concat(from: int, mid: int, to: int)
    requires
        0 <= from <= mid <= to,
    ensures
        fresh(from, to) == fresh(from, mid) + fresh(mid, to),
{
    assert(fresh(from, to) =~= fresh(from, mid) + fresh(mid, to));
}

/// Whether the operations `delta` account for the step from the containers
/// `before` to the containers `after`: whatever `delta` unmounts was there
/// before, whatever it mounts is there after, and the containers after are
/// exactly those before, without the unmounted and with the mounted ones,
/// each counted as often as it occurs.
#[verifier::opaque]
pub open spec fn accounts(
    before: Seq<ContainerID>,
    after: Seq<ContainerID>,
    delta: Seq<Operation>,
) -> bool {
    &&& forall|id: ContainerID| #[trigger] unmounted(delta).contains(id) ==> before.contains(id)
    &&& forall|id: ContainerID| #[trigger] mounted(delta).contains(id) ==> after.contains(id)
    &&& forall|id: ContainerID|
        #![trigger tally(after, id)]
        #![trigger tally(before, id)]
        tally(after, id) + tally(unmounted(delta), id) == tally(before, id) + tally(
            mounted(delta),
            id,
        )
}

/// The first `n` of `edges` that are marked, in order.
pub open spec fn kept<C>(edges: Seq<Instance<C>>, marks: Seq<bool>, n: int) -> Seq<Instance<C>>
    decreases n,
{
    if n <= 0 {
        Seq::empty()
    } else if marks[n - 1] {
        kept(edges, marks, n - 1).push(edges[n - 1])
    } else {
        kept(edges, marks, n - 1)
    }
}

/// What the unmarked among the first `n` of `edges` own, in the order in
/// which unmounting them one after the other removes it.
pub open spec fn released<C>(edges: Seq<Instance<C>>, marks: Seq<bool>, n: int) -> Seq<
    ContainerID,
>
    decreases n,
{
    if n <= 0 {
        Seq::empty()
    } else if marks[n - 1] {
        released(edges, marks, n - 1)
    } else {
        released(edges, marks, n - 1) + edges[n - 1].owned()
    }
}

/// Whether one of `wanted` asks for a child under the key `key` that owns a
/// container if `owns` is set and none if it is not. A child is kept from
/// one pass to the next exactly if it is asked for.
pub open spec fn asked<C>(wanted: Seq<Node<C>>, key: Key, owns: bool) -> bool {
    exists|u: int|
        0 <= u < wanted.len() && (#[trigger] wanted[u]).key() == key && (wanted[u] is Builtin)
            == owns
}

/// What those of the first `n` of `children` own that none of `wanted` asks
/// for, in the order in which unmounting them one after the other removes
/// it: child by child, and within each child's tree the children before
/// their parent.
pub open spec fn outgoing<C>(children: Seq<Instance<C>>, wanted: Seq<Node<C>>, n: int) -> Seq<
    ContainerID,
>
    decreases n,
{
    if n <= 0 {
        Seq::empty()
    } else if asked(wanted, children[n - 1].key(), children[n - 1].owns()) {
        outgoing(children, wanted, n - 1)
    } else {
        outgoing(children, wanted, n - 1) + children[n - 1].owned()
    }
}

/// Whether one of `children` is kept for `node`: stands under the key of
/// `node` and owns a container if and only if `node` asks for one.
pub open spec fn held<C>(children: Seq<Instance<C>>, node: Node<C>) -> bool {
    exists|i: int|
        0 <= i < children.len() && (#[trigger] children[i]).key() == node.key() && children[i].owns()
            == (node is Builtin)
}

/// The child that is kept for `node`.
pub open spec fn holder<C>(children: Seq<Instance<C>>, node: Node<C>) -> int {
    choose|i: int|
        0 <= i < children.len() && (#[trigger] children[i]).key() == node.key() && children[i].owns()
            == (node is Builtin)
}

/// What a pass records, and how many containers it takes, to bring in a
/// child for `node` among `children`, where `node` runs no component, the
/// parent targets `target` and the next container gets the id `next`. A
/// child that is kept for `node` is brought into line with it: its own
/// children with the edges of `node`, and those of them that go are
/// unmounted at the end. Where no child is kept, `node` is rendered for the
/// first time.
pub open spec fn trace<C>(
    children: Seq<Instance<C>>,
    node: Node<C>,
    target: ContainerID,
    next: nat,
) -> (Seq<Operation>, nat)
    decreases node.height(), 0nat,
{
    if held(children, node) {
        let child = children[holder(children, node)];
        if node is String {
            (Seq::empty(), 0)
        } else {
            proof {
                node.lemma_edges();
            }
            let below = trace_of(
                child.children(),
                node.edges(),
                child.target(),
                next,
                node.edges().len() as int,
            );
            (
                below.0 + removals(
                    outgoing(child.children(), node.edges(), child.children().len() as int),
                ),
                below.1,
            )
        }
    } else {
        (node.script(target, next), node.builtins())
    }
}

/// What a pass records, and how many containers it takes, to bring in
/// children for the first `t` of `wanted`, one after the other.
pub open spec fn trace_of<C>(
    children: Seq<Instance<C>>,
    wanted: Seq<Node<C>>,
    target: ContainerID,
    next: nat,
    t: int,
) -> (Seq<Operation>, nat)
    decreases Node::tallest(wanted), t,
{
    if t <= 0 || t > wanted.len() {
        (Seq::empty(), 0)
    } else {
        proof {
            Node::lemma_tallest(wanted, t - 1);
        }
        let before = trace_of(children, wanted, target, next, t - 1);
        let last = trace(children, wanted[t - 1], target, next + before.1);
        (before.0 + last.0, before.1 + last.1)
    }
}

/// Where exactly the children are marked that an element asks for, by
/// key and by sort, and whatever was added behind them is marked, what is
/// released is what goes out.
pub proof fn lemma_released_outgoing<C>(
    before: Seq<Instance<C>>,
    now: Seq<Instance<C>>,
    marks: Seq<bool>,
    wanted: Seq<Node<C>>,
    n: int,
)
    requires
        0 <= n <= now.len(),
        before.len() <= now.len(),
        now.len() == marks.len(),
        forall|i: int|
            0 <= i < before.len() ==> marks[i] == asked(
                wanted,
                (#[trigger] before[i]).key(),
                before[i].owns(),
            ),
        forall|i: int| 0 <= i < before.len() && !marks[i] ==> (#[trigger] now[i]) == before[i],
        forall|i: int| before.len() <= i < now.len() ==> #[trigger] marks[i],
    ensures
        released(now, marks, n) == outgoing(
            before,
            wanted,
            if n <= before.len() {
                n
            } else {
                before.len() as int
            },
        ),
    decreases n,
{
    if n > 0 {
        lemma_released_outgoing(before, now, marks, wanted, n - 1);
        if n - 1 < before.len() {
            assert(marks[n - 1] == asked(wanted, before[n - 1].key(), before[n - 1].owns()));
            if !marks[n - 1] {
                assert(now[n - 1] == before[n - 1]);
            }
        } else {
            assert(marks[n - 1]);
        }
    }
}

/// The kept stand in the order of the marked: a marked instance stands
/// behind as many kept instances as marked instances stand before it.
pub proof fn lemma_kept_rank<C>(edges: Seq<Instance<C>>, marks: Seq<bool>, n: int, i: int)
    requires
        0 <= i <= n <= edges.len(),
    ensures
        kept(edges, marks, i).len() <= kept(edges, marks, n).len(),
        i < n && marks[i] ==> kept(edges, marks, i).len() < kept(edges, marks, n).len() && kept(
            edges,
            marks,
            n,
        )[kept(edges, marks, i).len() as int] == edges[i],
{
    lemma_kept_prefix(edges, marks, n, i);
    if i < n && marks[i] {
        lemma_kept_prefix(edges, marks, n, i + 1);
        let front = kept(edges, marks, i);
        let next = kept(edges, marks, i + 1);
        assert(next == front.push(edges[i]));
        assert(next[front.len() as int] == edges[i]);
    }
}

/// The kept among fewer are the first of the kept among more.
pub proof fn lemma_kept_prefix<C>(edges: Seq<Instance<C>>, marks: Seq<bool>, n: int, m: int)
    requires
        0 <= m <= n <= edges.len(),
    ensures
        kept(edges, marks, m).len() <= kept(edges, marks, n).len(),
        forall|j: int|
            0 <= j < kept(edges, marks, m).len() ==> kept(edges, marks, n)[j] == (#[trigger] kept(
                edges,
                marks,
                m,
            )[j]),
    decreases n - m,
{
    if m < n {
        lemma_kept_prefix(edges, marks, n - 1, m);
    }
}

/// Where all are marked, all are kept and nothing is released.
pub proof fn lemma_kept_all<C>(edges: Seq<Instance<C>>, marks: Seq<bool>, n: int)
    requires
        0 <= n <= edges.len(),
        forall|i: int| 0 <= i < n ==> marks[i],
    ensures
        kept(edges, marks, n) == edges.take(n),
        released(edges, marks, n) == Seq::<ContainerID>::empty(),
    decreases n,
{
    if n > 0 {
        lemma_kept_all(edges, marks, n - 1);
        assert(edges.take(n) =~= edges.take(n - 1).push(edges[n - 1]));
    } else {
        assert(edges.take(n) =~= Seq::<Instance<C>>::empty());
    }
}

/// Each kept instance is a marked one.
pub proof fn lemma_kept_from<C>(edges: Seq<Instance<C>>, marks: Seq<bool>, n: int, j: int) -> (i:
    int)
    requires
        0 <= n <= edges.len(),
        0 <= j < kept(edges, marks, n).len(),
    ensures
        0 <= i < n,
        marks[i],
        kept(edges, marks, n)[j] == edges[i],
    decreases n,
{
    if marks[n - 1] && j == kept(edges, marks, n - 1).len() {
        n - 1
    } else {
        lemma_kept_from(edges, marks, n - 1, j)
    }
}

/// Each marked instance is kept.
pub proof fn lemma_kept_has<C>(edges: Seq<Instance<C>>, marks: Seq<bool>, n: int, i: int) -> (j:
    int)
    requires
        0 <= i < n <= edges.len(),
        marks[i],
    ensures
        0 <= j < kept(edges, marks, n).len(),
        kept(edges, marks, n)[j] == edges[i],
    decreases n,
{
    if i == n - 1 {
        kept(edges, marks, n - 1).len() as int
    } else {
        lemma_kept_has(edges, marks, n - 1, i)
    }
}

/// Keys that differ among the marked differ among the kept.
pub proof fn lemma_kept_distinct<C>(edges: Seq<Instance<C>>, marks: Seq<bool>, n: int)
    requires
        0 <= n <= edges.len(),
        forall|a: int, b: int|
            #![trigger edges[a], edges[b]]
            0 <= a < b < n && marks[a] && marks[b] ==> edges[a].key() != edges[b].key(),
    ensures
        forall|a: int, b: int|
            #![trigger kept(edges, marks, n)[a], kept(edges, marks, n)[b]]
            0 <= a < b < kept(edges, marks, n).len() ==> kept(edges, marks, n)[a].key() != kept(
                edges,
                marks,
                n,
            )[b].key(),
    decreases n,
{
    if n > 0 {
        lemma_kept_distinct(edges, marks, n - 1);
        let front = kept(edges, marks, n - 1);
        let all = kept(edges, marks, n);
        if marks[n - 1] {
            assert forall|a: int, b: int| 0 <= a < b < all.len() implies all[a].key()
                != all[b].key() by {
                if b == front.len() {
                    let i = lemma_kept_from(edges, marks, n - 1, a);
                    assert(edges[i].key() != edges[n - 1].key());
                } else {
                    assert(front[a].key() != front[b].key());
                }
            }
        }
    }
}

/// What the first `n` instances own is what the kept among them own and
/// what the others release.
pub proof fn lemma_kept_owned<C>(edges: Seq<Instance<C>>, marks: Seq<bool>, n: int, id: ContainerID)
    requires
        0 <= n <= edges.len(),
    ensures
        tally(owned_by(edges.take(n)), id) == tally(owned_by(kept(edges, marks, n)), id) + tally(
            released(edges, marks, n),
            id,
        ),
    decreases n,
{
    if n == 0 {
        let none = Seq::<ContainerID>::empty();
        assert(edges.take(0) =~= Seq::<Instance<C>>::empty());
        assert(owned_by(edges.take(n)) =~= none);
        assert(owned_by(kept(edges, marks, n)) =~= none);
        assert(released(edges, marks, n) =~= none);
        lemma_tally_empty(id);
    } else {
        lemma_kept_owned(edges, marks, n - 1, id);
        let front = edges.take(n - 1);
        let last = edges[n - 1];
        assert(edges.take(n) =~= front.push(last));
        lemma_owned_by_push(front, last);
        lemma_tally_concat(owned_by(front), last.owned(), id);
        let k = kept(edges, marks, n - 1);
        let r = released(edges, marks, n - 1);
        if marks[n - 1] {
            lemma_owned_by_push(k, last);
            lemma_tally_concat(owned_by(k), last.owned(), id);
        } else {
            lemma_tally_concat(r, last.owned(), id);
        }
    }
}

/// What is released was owned by an unmarked instance.
pub proof fn lemma_released_whose<C>(
    edges: Seq<Instance<C>>,
    marks: Seq<bool>,
    n: int,
    id: ContainerID,
) -> (i: int)
    requires
        0 <= n <= edges.len(),
        released(edges, marks, n).contains(id),
    ensures
        0 <= i < n,
        !marks[i],
        edges[i].owned().contains(id),
    decreases n,
{
    let front = released(edges, marks, n - 1);
    if n <= 0 {
        0
    } else if marks[n - 1] {
        lemma_released_whose(edges, marks, n - 1, id)
    } else {
        let last = edges[n - 1].owned();
        let k = choose|k: int| 0 <= k < (front + last).len() && (front + last)[k] == id;
        if k < front.len() {
            assert(front[k] == id);
            lemma_released_whose(edges, marks, n - 1, id)
        } else {
            assert(last[k - front.len()] == id);
            n - 1
        }
    }
}

/// An id handed out in a stretch lies in the stretch.
pub proof fn lemma_fresh_within(from: int, to: int, id: ContainerID)
    requires
        0 <= from,
        to <= usize::MAX,
        fresh(from, to).contains(id),
    ensures
        from <= id.0 < to,
{
    let k = choose|k: int| 0 <= k < fresh(from, to).len() && fresh(from, to)[k] == id;
    assert(fresh(from, to)[k] == ContainerID((from + k) as usize));
}

/// What accounts for a step of the children accounts for the step of their
/// parent too, which owns the container `own` before and after.
pub proof fn lemma_accounts_owner(
    before: Seq<ContainerID>,
    after: Seq<ContainerID>,
    delta: Seq<Operation>,
    own: ContainerID,
)
    requires
        accounts(before, after, delta),
    ensures
        accounts(before.push(own), after.push(own), delta),
{
    reveal(accounts);
    assert forall|id: ContainerID| #[trigger] unmounted(delta).contains(id) implies before.push(
        own,
    ).contains(id) by {
        let k = choose|k: int| 0 <= k < before.len() && before[k] == id;
        assert(before.push(own)[k] == id);
    }
    assert forall|id: ContainerID| #[trigger] mounted(delta).contains(id) implies after.push(
        own,
    ).contains(id) by {
        let k = choose|k: int| 0 <= k < after.len() && after[k] == id;
        assert(after.push(own)[k] == id);
    }
    assert forall|id: ContainerID|
        #![trigger tally(after.push(own), id)]
        #![trigger tally(before.push(own), id)]
        tally(after.push(own), id) + tally(unmounted(delta), id) == tally(before.push(own), id)
            + tally(mounted(delta), id) by {
        crate::compositor::lemma_tally_push(before, own, id);
        crate::compositor::lemma_tally_push(after, own, id);
        assert(tally(after, id) + tally(unmounted(delta), id) == tally(before, id) + tally(
            mounted(delta),
            id,
        ));
    }
}

/// Nothing accounts for no change.
pub proof fn lemma_accounts_nothing(ids: Seq<ContainerID>)
    ensures
        accounts(ids, ids, Seq::<Operation>::empty()),
{
    reveal(accounts);
    let none = Seq::<ContainerID>::empty();
    assert(mounted(Seq::<Operation>::empty()) =~= none);
    assert(unmounted(Seq::<Operation>::empty()) =~= none);
}

/// Where an id occurs in a concatenation of two projections.
proof fn lemma_split(a: Seq<ContainerID>, b: Seq<ContainerID>, id: ContainerID)
    requires
        (a + b).contains(id),
    ensures
        a.contains(id) || b.contains(id),
{
    let k = choose|k: int| 0 <= k < (a + b).len() && (a + b)[k] == id;
    if k < a.len() {
        assert(a[k] == id);
    } else {
        assert(b[k - a.len()] == id);
    }
}

/// The account of a pass, extended by the account of one child that the pass
/// kept and brought into line. `was` and `is` are what the child owned and
/// owns, `was_below` and `is_below` what its children owned and own, `now`
/// and `next` what all the children together owned and own.
pub proof fn lemma_accounts_replace(
    before: Seq<ContainerID>,
    now: Seq<ContainerID>,
    next: Seq<ContainerID>,
    was: Seq<ContainerID>,
    is: Seq<ContainerID>,
    was_below: Seq<ContainerID>,
    is_below: Seq<ContainerID>,
    delta: Seq<Operation>,
    d: Seq<Operation>,
    lo: int,
    mid: int,
    hi: int,
)
    requires
        accounts(before, now, delta),
        accounts(was_below, is_below, d),
        0 <= lo <= mid <= hi <= usize::MAX,
        mounted(delta) == fresh(lo, mid),
        mounted(d) == fresh(mid, hi),
        forall|id: ContainerID| #[trigger] was.contains(id) ==> id.0 < lo && before.contains(id),
        forall|id: ContainerID| #[trigger] was_below.contains(id) ==> was.contains(id),
        forall|id: ContainerID| #[trigger] is_below.contains(id) ==> is.contains(id),
        forall|id: ContainerID|
            #![trigger tally(next, id)]
            tally(next, id) + tally(was, id) == tally(now, id) + tally(is, id),
        forall|id: ContainerID|
            #![trigger tally(was, id)]
            tally(was, id) + tally(is_below, id) == tally(is, id) + tally(was_below, id),
    ensures
        accounts(before, next, delta + d),
        mounted(delta + d) == fresh(lo, hi),
{
    reveal(accounts);
    crate::compositor::lemma_mounted_concat(delta, d);
    crate::compositor::lemma_unmounted_concat(delta, d);
    lemma_fresh_concat(lo, mid, hi);
    assert forall|id: ContainerID| #[trigger] unmounted(delta + d).contains(id) implies before.contains(
        id,
    ) by {
        lemma_split(unmounted(delta), unmounted(d), id);
        if unmounted(d).contains(id) {
            assert(was_below.contains(id));
            assert(was.contains(id));
        }
    }
    assert forall|id: ContainerID| #[trigger] mounted(delta + d).contains(id) implies next.contains(
        id,
    ) by {
        lemma_split(mounted(delta), mounted(d), id);
        lemma_tally_contains(next, id);
        lemma_tally_contains(now, id);
        lemma_tally_contains(was, id);
        lemma_tally_contains(is, id);
        assert(tally(next, id) + tally(was, id) == tally(now, id) + tally(is, id));
        if mounted(delta).contains(id) {
            lemma_fresh_within(lo, mid, id);
            assert(now.contains(id));
            assert(!was.contains(id));
        } else {
            lemma_fresh_within(mid, hi, id);
            assert(is_below.contains(id));
            assert(is.contains(id));
            assert(!was.contains(id));
        }
    }
    {
        assert forall|id: ContainerID|
            tally(next, id) + tally(unmounted(delta + d), id) == tally(before, id) + tally(
                mounted(delta + d),
                id,
            ) by {
            lemma_tally_concat(unmounted(delta), unmounted(d), id);
            lemma_tally_concat(mounted(delta), mounted(d), id);
            assert(tally(next, id) + tally(was, id) == tally(now, id) + tally(is, id));
            assert(tally(now, id) + tally(unmounted(delta), id) == tally(before, id) + tally(
                mounted(delta),
                id,
            ));
            assert(tally(is_below, id) + tally(unmounted(d), id) == tally(was_below, id) + tally(
                mounted(d),
                id,
            ));
            assert(tally(was, id) + tally(is_below, id) == tally(is, id) + tally(was_below, id));
        }
    }
}

/// The account of a pass, extended by the account of one child that the pass
/// rendered for the first time and added behind the others.
pub proof fn lemma_accounts_append(
    before: Seq<ContainerID>,
    now: Seq<ContainerID>,
    is: Seq<ContainerID>,
    delta: Seq<Operation>,
    d: Seq<Operation>,
    lo: int,
    mid: int,
    hi: int,
)
    requires
        accounts(before, now, delta),
        accounts(Seq::<ContainerID>::empty(), is, d),
        0 <= lo <= mid <= hi <= usize::MAX,
        mounted(delta) == fresh(lo, mid),
        mounted(d) == fresh(mid, hi),
    ensures
        accounts(before, now + is, delta + d),
        mounted(delta + d) == fresh(lo, hi),
{
    reveal(accounts);
    let none = Seq::<ContainerID>::empty();
    crate::compositor::lemma_mounted_concat(delta, d);
    crate::compositor::lemma_unmounted_concat(delta, d);
    lemma_fresh_concat(lo, mid, hi);
    assert(unmounted(d) =~= none) by {
        if unmounted(d).len() > 0 {
            assert(unmounted(d).contains(unmounted(d)[0]));
            assert(none.contains(unmounted(d)[0]));
        }
    }
    assert(unmounted(delta + d) =~= unmounted(delta));
    assert forall|id: ContainerID| #[trigger] mounted(delta + d).contains(id) implies (now
        + is).contains(id) by {
        lemma_split(mounted(delta), mounted(d), id);
        if mounted(delta).contains(id) {
            let j = choose|j: int| 0 <= j < now.len() && now[j] == id;
            assert((now + is)[j] == id);
        } else {
            let j = choose|j: int| 0 <= j < is.len() && is[j] == id;
            assert((now + is)[now.len() + j] == id);
        }
    }
    {
        assert forall|id: ContainerID|
            tally(now + is, id) + tally(unmounted(delta + d), id) == tally(before, id) + tally(
                mounted(delta + d),
                id,
            ) by {
            lemma_tally_concat(now, is, id);
            lemma_tally_concat(mounted(delta), mounted(d), id);
            lemma_tally_empty(id);
            assert(tally(now, id) + tally(unmounted(delta), id) == tally(before, id) + tally(
                mounted(delta),
                id,
            ));
            assert(tally(is, id) + tally(unmounted(d), id) == tally(none, id) + tally(
                mounted(d),
                id,
            ));
        }
    }
}

/// The account of a pass, extended by the sweep that ends it: the children
/// that no element asked for are unmounted, and the others stay.
pub proof fn lemma_accounts_sweep(
    before: Seq<ContainerID>,
    now: Seq<ContainerID>,
    stay: Seq<ContainerID>,
    gone: Seq<ContainerID>,
    delta: Seq<Operation>,
    lo: int,
    hi: int,
)
    requires
        accounts(before, now, delta),
        0 <= lo <= hi <= usize::MAX,
        mounted(delta) == fresh(lo, hi),
        forall|id: ContainerID|
            #![trigger tally(now, id)]
            tally(now, id) == tally(stay, id) + tally(gone, id),
        forall|id: ContainerID| #[trigger] gone.contains(id) ==> id.0 < lo && before.contains(id),
    ensures
        accounts(before, stay, delta + removals(gone)),
        mounted(delta + removals(gone)) == fresh(lo, hi),
{
    reveal(accounts);
    let d = removals(gone);
    lemma_removals(gone);
    crate::compositor::lemma_mounted_concat(delta, d);
    crate::compositor::lemma_unmounted_concat(delta, d);
    assert(mounted(delta + d) =~= mounted(delta));
    assert forall|id: ContainerID| #[trigger] unmounted(delta + d).contains(id) implies before.contains(
        id,
    ) by {
        lemma_split(unmounted(delta), gone, id);
    }
    assert forall|id: ContainerID| #[trigger] mounted(delta + d).contains(id) implies stay.contains(
        id,
    ) by {
        assert(mounted(delta).contains(id));
        lemma_fresh_within(lo, hi, id);
        assert(now.contains(id));
        assert(!gone.contains(id));
        lemma_tally_contains(now, id);
        lemma_tally_contains(gone, id);
        lemma_tally_contains(stay, id);
        assert(tally(now, id) == tally(stay, id) + tally(gone, id));
    }
    {
        assert forall|id: ContainerID|
            tally(stay, id) + tally(unmounted(delta + d), id) == tally(before, id) + tally(
                mounted(delta + d),
                id,
            ) by {
            lemma_tally_concat(unmounted(delta), gone, id);
            assert(tally(now, id) + tally(unmounted(delta), id) == tally(before, id) + tally(
                mounted(delta),
                id,
            ));
            assert(tally(now, id) == tally(stay, id) + tally(gone, id));
        }
    }
}

/// The account of rendering a builtin for the first time: its container is
/// mounted, then what stands below it is rendered.
pub proof fn lemma_accounts_mount(
    id: ContainerID,
    first: Operation,
    below: Seq<ContainerID>,
    d: Seq<Operation>,
    lo: int,
    hi: int,
)
    requires
        accounts(Seq::<ContainerID>::empty(), below, d),
        0 <= lo < hi <= usize::MAX,
        id == ContainerID(lo as usize),
        first is Mount,
        first->Mount_0 == id,
        mounted(d) == fresh(lo + 1, hi),
    ensures
        accounts(Seq::<ContainerID>::empty(), below.push(id), seq![first] + d),
        mounted(seq![first] + d) == fresh(lo, hi),
{
    reveal(accounts);
    let none = Seq::<ContainerID>::empty();
    let one = seq![first];
    assert(one.drop_last() =~= Seq::<Operation>::empty());
    assert(one.last() == first);
    assert(mounted(one.drop_last()) =~= none);
    assert(unmounted(one.drop_last()) =~= none);
    assert(mounted(one) =~= seq![id]);
    assert(unmounted(one) =~= none);
    crate::compositor::lemma_mounted_concat(one, d);
    crate::compositor::lemma_unmounted_concat(one, d);
    assert(fresh(lo, hi) =~= seq![id] + fresh(lo + 1, hi));
    assert(unmounted(one + d) =~= unmounted(d));
    assert forall|x: ContainerID| #[trigger] mounted(one + d).contains(x) implies below.push(
        id,
    ).contains(x) by {
        lemma_split(mounted(one), mounted(d), x);
        if mounted(one).contains(x) {
            assert(x == id);
            assert(below.push(id)[below.len() as int] == id);
        } else {
            let j = choose|j: int| 0 <= j < below.len() && below[j] == x;
            assert(below.push(id)[j] == x);
        }
    }
    {
        assert forall|x: ContainerID|
            tally(below.push(id), x) + tally(unmounted(one + d), x) == tally(none, x) + tally(
                mounted(one + d),
                x,
            ) by {
            crate::compositor::lemma_tally_push(below, id, x);
            lemma_tally_concat(mounted(one), mounted(d), x);
            lemma_tally_empty(x);
            crate::compositor::lemma_tally_push(none, id, x);
            assert(none.push(id) =~= seq![id]);
            assert(tally(below, x) + tally(unmounted(d), x) == tally(none, x) + tally(
                mounted(d),
                x,
            ));
        }
    }
}

/// An account holds of any operations that mount and unmount the same ids.
pub proof fn lemma_accounts_quiet(
    before: Seq<ContainerID>,
    after: Seq<ContainerID>,
    delta: Seq<Operation>,
    longer: Seq<Operation>,
)
    requires
        accounts(before, after, delta),
        mounted(longer) == mounted(delta),
        unmounted(longer) == unmounted(delta),
    ensures
        accounts(before, after, longer),
{
    reveal(accounts);
}

} // verus!
