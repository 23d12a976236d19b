//! Context frames: what an instance can see of the values that `Context`
//! elements bind above it.

use vstd::prelude::*;

verus! {

/// A value bound by a `Context` element. `kind` names the context that the
/// value belongs to; a frame holds one value per kind.
#[derive(Clone, Copy, Debug, PartialEq, Eq, Hash, Structural)]
pub struct ContextValue {
    pub kind: u64,
    pub value: u64,
}

/// The map that a list of bindings stands for. Where two bindings share a
/// kind, the earlier one counts.
pub open spec fn bindings(values: Seq<ContextValue>) -> Map<u64, u64>
    decreases values.len(),
{
    if values.len() == 0 {
        Map::empty()
    } else {
        bindings(values.drop_first()).insert(values[0].kind, values[0].value)
    }
}

/// A kind that no binding has is not bound.
proof fn lemma_bindings_absent(values: Seq<ContextValue>, kind: u64)
    requires
        forall|j: int| 0 <= j < values.len() ==> values[j].kind != kind,
    ensures
        !bindings(values).dom().contains(kind),
    decreases values.len(),
{
    if values.len() > 0 {
        lemma_bindings_absent(values.drop_first(), kind);
    }
}

/// The first binding of a kind is the one that counts.
proof fn lemma_bindings_first(values: Seq<ContextValue>, i: int)
    requires
        0 <= i < values.len(),
        forall|j: int| 0 <= j < i ==> values[j].kind != values[i].kind,
    ensures
        bindings(values).dom().contains(values[i].kind),
        bindings(values)[values[i].kind] == values[i].value,
    decreases i,
{
    if i > 0 {
        lemma_bindings_first(values.drop_first(), i - 1);
    }
}

/// Replacing the first binding of a kind rebinds the kind.
proof fn lemma_bindings_replace(values: Seq<ContextValue>, i: int, value: ContextValue)
    requires
        0 <= i < values.len(),
        values[i].kind == value.kind,
        forall|j: int| 0 <= j < i ==> values[j].kind != value.kind,
    ensures
        bindings(values.update(i, value)) == bindings(values).insert(value.kind, value.value),
    decreases i,
{
    let updated = values.update(i, value);
    if i == 0 {
        assert(updated.drop_first() =~= values.drop_first());
        assert(bindings(updated) =~= bindings(values).insert(value.kind, value.value));
    } else {
        lemma_bindings_replace(values.drop_first(), i - 1, value);
        assert(updated.drop_first() =~= values.drop_first().update(i - 1, value));
        assert(values[0].kind != value.kind);
        assert(bindings(updated) =~= bindings(values).insert(value.kind, value.value));
    }
}

/// A binding of a new kind, added at the end, binds the kind.
proof fn lemma_bindings_append(values: Seq<ContextValue>, value: ContextValue)
    requires
        forall|j: int| 0 <= j < values.len() ==> values[j].kind != value.kind,
    ensures
        bindings(values.push(value)) == bindings(values).insert(value.kind, value.value),
    decreases values.len(),
{
    let pushed = values.push(value);
    if values.len() == 0 {
        assert(pushed.drop_first() =~= values);
        assert(bindings(pushed) =~= bindings(values).insert(value.kind, value.value));
    } else {
        lemma_bindings_append(values.drop_first(), value);
        assert(pushed.drop_first() =~= values.drop_first().push(value));
        assert(bindings(pushed) =~= bindings(values).insert(value.kind, value.value));
    }
}

/// One value per context kind.
#[derive(Debug)]
pub struct ContextFrame {
    values: Vec<ContextValue>,
}

impl View for ContextFrame {
    type V = Map<u64, u64>;

    /// The value bound for each kind.
    closed spec fn view(&self) -> Map<u64, u64> {
        bindings(self.values@)
    }
}

impl ContextFrame {
    /// A frame that binds nothing.
    pub fn new() -> (frame: ContextFrame)
        ensures
            frame@ == Map::<u64, u64>::empty(),
    {
        ContextFrame { values: Vec::new() }
    }

    /// Binds `value`, in place of the frame's earlier value of that kind if
    /// it had one.
    pub fn insert(&mut self, value: ContextValue)
        ensures
            final(self)@ == old(self)@.insert(value.kind, value.value),
    {
        let mut i: usize = 0;
        while i < self.values.len()
            invariant
                i <= self.values@.len(),
                self.values@ == old(self).values@,
                forall|j: int| 0 <= j < i ==> self.values@[j].kind != value.kind,
            decreases self.values@.len() - i,
        {
            if self.values[i].kind == value.kind {
                proof {
                    lemma_bindings_replace(self.values@, i as int, value);
                }
                self.values[i] = value;
                return ;
            }
            i = i + 1;
        }
        proof {
            lemma_bindings_append(self.values@, value);
        }
        self.values.push(value);
    }

    /// The value bound for `kind`, if there is one.
    pub fn get(&self, kind: u64) -> (value: Option<u64>)
        ensures
            value == (if self@.dom().contains(kind) {
                Some(self@[kind])
            } else {
                None
            }),
    {
        let mut i: usize = 0;
        while i < self.values.len()
            invariant
                i <= self.values@.len(),
                forall|j: int| 0 <= j < i ==> self.values@[j].kind != kind,
            decreases self.values@.len() - i,
        {
            if self.values[i].kind == kind {
                proof {
                    lemma_bindings_first(self.values@, i as int);
                }
                return Some(self.values[i].value);
            }
            i = i + 1;
        }
        proof {
            lemma_bindings_absent(self.values@, kind);
        }
        None
    }

    /// A copy of the frame.
    pub fn duplicate(&self) -> (frame: ContextFrame)
        ensures
            frame@ == self@,
    {
        let mut frame = ContextFrame { values: Vec::new() };
        let mut k: usize = 0;
        while k < self.values.len()
            invariant
                k <= self.values@.len(),
                frame.values@ == self.values@.take(k as int),
            decreases self.values@.len() - k,
        {
            frame.values.push(self.values[k]);
            assert(self.values@.take(k as int).push(self.values@[k as int]) =~= self.values@.take(
                k + 1,
            ));
            k = k + 1;
        }
        assert(self.values@.take(self.values@.len() as int) =~= self.values@);
        frame
    }

    /// The frame that an instance below sees: the bindings of `self`, each
    /// replaced by the binding of `inner` for the same kind where `inner`
    /// has one, and the further bindings of `inner`.
    pub fn enter(&self, inner: &ContextFrame) -> (frame: ContextFrame)
        ensures
            frame@ == self@.union_prefer_right(inner@),
    {
        let mut frame = self.duplicate();
        let mut i: usize = inner.values.len();
        assert(inner.values@.skip(i as int) =~= Seq::<ContextValue>::empty());
        assert(frame@ =~= self@.union_prefer_right(bindings(inner.values@.skip(i as int))));
        while i > 0
            invariant
                i <= inner.values@.len(),
                frame@ == self@.union_prefer_right(bindings(inner.values@.skip(i as int))),
            decreases i,
        {
            i = i - 1;
            let ghost before = frame@;
            frame.insert(inner.values[i]);
            proof {
                let rest = inner.values@.skip(i as int);
                assert(rest.drop_first() =~= inner.values@.skip(i + 1));
                assert(rest[0] == inner.values@[i as int]);
                assert(frame@ =~= self@.union_prefer_right(bindings(rest)));
            }
        }
        assert(inner.values@.skip(0) =~= inner.values@);
        frame
    }
}

} // verus!
