//! Reference cells: places where a component finds, after a pass, the
//! container that one of its builtins was mounted as.

use crate::compositor::ContainerID;
use vstd::prelude::*;

verus! {

/// A handle to one cell of a renderer's [`Cells`]. The handle stays the same
/// from one render of its component to the next.
#[derive(Clone, Copy, Debug, PartialEq, Eq, Hash, Structural)]
pub struct Reference(pub usize);

/// The reference cells of one renderer. A cell is empty until a builtin that
/// carries its handle is mounted.
#[derive(Debug)]
pub struct Cells {
    cells: Vec<Option<ContainerID>>,
}

impl View for Cells {
    type V = Seq<Option<ContainerID>>;

    /// What each cell holds.
    closed spec fn view(&self) -> Seq<Option<ContainerID>> {
        self.cells@
    }
}

impl Cells {
    /// No cells.
    pub fn new() -> (cells: Cells)
        ensures
            cells@ == Seq::<Option<ContainerID>>::empty(),
    {
        Cells { cells: Vec::new() }
    }

    /// Adds an empty cell and returns its handle.
    pub fn allocate(&mut self) -> (reference: Reference)
        ensures
            reference == Reference(old(self)@.len() as usize),
            final(self)@ == old(self)@.push(None),
    {
        let reference = Reference(self.cells.len());
        self.cells.push(None);
        reference
    }

    /// A copy of the cells.
    pub fn duplicate(&self) -> (copy: Cells)
        ensures
            copy@ == self@,
    {
        let mut cells: Vec<Option<ContainerID>> = Vec::new();
        let mut i: usize = 0;
        while i < self.cells.len()
            invariant
                i <= self.cells@.len(),
                cells@ == self.cells@.take(i as int),
            decreases self.cells@.len() - i,
        {
            cells.push(self.cells[i]);
            proof {
                assert(cells@ =~= self.cells@.take(i + 1));
            }
            i = i + 1;
        }
        proof {
            assert(cells@ =~= self.cells@);
        }
        Cells { cells }
    }

    /// What the cell holds. `None` too for a handle that names no cell.
    pub fn get(&self, reference: Reference) -> (current: Option<ContainerID>)
        ensures
            current == (if reference.0 < self@.len() {
                self@[reference.0 as int]
            } else {
                None
            }),
    {
        if reference.0 < self.cells.len() {
            self.cells[reference.0]
        } else {
            None
        }
    }

    /// Stores `id` in the cell and returns what it held. A handle that names
    /// no cell changes nothing.
    pub fn replace(&mut self, reference: Reference, id: ContainerID) -> (previous: Option<
        ContainerID,
    >)
        ensures
            reference.0 < old(self)@.len() ==> previous == old(self)@[reference.0 as int] && final(self)@ == old(self)@.update(reference.0 as int, Some(id)),
            reference.0 >= old(self)@.len() ==> previous.is_none() && final(self)@ == old(self)@,
    {
        if reference.0 < self.cells.len() {
            let previous = self.cells[reference.0];
            self.cells[reference.0] = Some(id);
            previous
        } else {
            None
        }
    }
}

} // verus!
