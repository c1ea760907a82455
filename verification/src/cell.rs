//! Cells: bounded bit strings with a few references to other cells, and the
//! builder in which a cell is put together.

use vstd::prelude::*;
use crate::bitstring::raw_bits;

verus! {

/// The most bits of data that a cell holds.
pub const MAX_DATA_BITS: usize = 1023;

/// The most references that a cell holds.
pub const MAX_REFERENCES_COUNT: usize = 4;

/// What a cell holds: its bits of data and the cells that it refers to.
pub ghost struct CellView {
    pub data: Seq<bool>,
    pub references: Seq<CellView>,
}

impl CellView {
    /// The cell without data or references.
    pub open spec fn empty() -> CellView {
        CellView { data: Seq::empty(), references: Seq::empty() }
    }

    /// The cell and all cells below it keep within the capacity of a cell.
    pub open spec fn wf(self) -> bool
        decreases self,
    {
        &&& self.data.len() <= MAX_DATA_BITS
        &&& self.references.len() <= MAX_REFERENCES_COUNT
        &&& forall|i: int| 0 <= i < self.references.len() ==> (#[trigger] self.references[i]).wf()
    }

    /// The cell and the cells below it form a chain: none has more than one
    /// reference.
    pub open spec fn is_chain(self) -> bool
        decreases self,
    {
        &&& self.references.len() <= 1
        &&& forall|i: int|
            0 <= i < self.references.len() ==> (#[trigger] self.references[i]).is_chain()
    }

    /// The cell with `bits` behind its data.
    pub open spec fn with_bits(self, bits: Seq<bool>) -> CellView {
        CellView { data: self.data + bits, references: self.references }
    }

    /// The cell with one more reference, to `cell`, behind the others.
    pub open spec fn with_reference(self, cell: CellView) -> CellView {
        CellView { data: self.data, references: self.references.push(cell) }
    }

    /// The cell with the data and the references of `other` behind its own.
    pub open spec fn with_cell(self, other: CellView) -> CellView {
        CellView { data: self.data + other.data, references: self.references + other.references }
    }

    /// Whether the data and the references of `other` still fit into the
    /// cell.
    pub open spec fn has_room_for(self, other: CellView) -> bool {
        &&& self.data.len() + other.data.len() <= MAX_DATA_BITS
        &&& self.references.len() + other.references.len() <= MAX_REFERENCES_COUNT
    }
}

/// Why a builder refused to grow.
#[derive(Clone, Copy, Debug, PartialEq, Eq, Structural)]
pub enum CellError {
    /// More bits were asked for than the given bytes hold.
    NotEnoughData,
    /// The cell would hold more bits or more references than a cell can.
    CellOverflow,
}

/// A finished cell. It cannot be changed.
#[derive(Debug, PartialEq, Eq)]
pub struct Cell {
    data: Vec<bool>,
    references: Vec<Cell>,
}

/// The views of a list of cells.
pub closed spec fn cell_views(cells: Seq<Cell>) -> Seq<CellView> {
    Seq::new(cells.len(), |i: int| cells[i]@)
}

impl View for Cell {
    type V = CellView;

    closed spec fn view(&self) -> CellView
        decreases self,
    {
        CellView {
            data: self.data@,
            references: Seq::new(
                self.references@.len(),
                |i: int|
                    if 0 <= i < self.references@.len() {
                        self.references@[i].view()
                    } else {
                        CellView::empty()
                    },
            ),
        }
    }
}

impl Cell {
    /// What the view of a cell is made of.
    proof fn lemma_view(&self)
        ensures
            self@.data == self.data@,
            self@.references == cell_views(self.references@),
    {
        assert(self@.references =~= cell_views(self.references@));
    }

    /// Number of bits of data.
    pub fn bit_length(&self) -> (n: usize)
        ensures
            n == self@.data.len(),
    {
        proof {
            self.lemma_view();
        }
        self.data.len()
    }

    /// The bits of data, in order.
    pub fn data(&self) -> (bits: &Vec<bool>)
        ensures
            bits@ == self@.data,
    {
        proof {
            self.lemma_view();
        }
        &self.data
    }

    /// Number of references.
    pub fn references_count(&self) -> (n: usize)
        ensures
            n == self@.references.len(),
    {
        proof {
            self.lemma_view();
        }
        self.references.len()
    }

    /// The cell that reference `index` leads to.
    pub fn reference(&self, index: usize) -> (cell: &Cell)
        requires
            index < self@.references.len(),
        ensures
            cell@ == self@.references[index as int],
    {
        proof {
            self.lemma_view();
        }
        &self.references[index]
    }

    /// A copy of the cell and of all cells below it.
    fn duplicate(&self) -> (cell: Self)
        ensures
            cell@ == self@,
        decreases self,
    {
        let mut references: Vec<Cell> = Vec::new();
        let n = self.references.len();
        for i in 0..n
            invariant
                n == self.references@.len(),
                references@.len() == i,
                forall|j: int| 0 <= j < i ==> (#[trigger] references@[j])@ == self.references@[j]@,
        {
            references.push(self.references[i].duplicate());
        }
        let cell = Cell { data: self.data.clone(), references };
        proof {
            self.lemma_view();
            cell.lemma_view();
            assert(cell_views(cell.references@) =~= cell_views(self.references@));
            assert(cell.data@ =~= self.data@);
        }
        cell
    }
}

impl Clone for Cell {
    fn clone(&self) -> (cell: Self)
        ensures
            cell@ == self@,
    {
        self.duplicate()
    }
}

/// A cell in the making: bits and references are put behind those it holds
/// as long as the capacity of a cell allows.
#[derive(Debug, PartialEq, Eq)]
pub struct BuilderData {
    data: Vec<bool>,
    references: Vec<Cell>,
}

impl View for BuilderData {
    type V = CellView;

    closed spec fn view(&self) -> CellView {
        CellView { data: self.data@, references: cell_views(self.references@) }
    }
}

impl Clone for BuilderData {
    fn clone(&self) -> (builder: Self)
        ensures
            builder@ == self@,
    {
        let mut references: Vec<Cell> = Vec::new();
        let n = self.references.len();
        for i in 0..n
            invariant
                n == self.references@.len(),
                references@.len() == i,
                forall|j: int| 0 <= j < i ==> (#[trigger] references@[j])@ == self.references@[j]@,
        {
            references.push(self.references[i].clone());
        }
        let builder = BuilderData { data: self.data.clone(), references };
        proof {
            assert(cell_views(builder.references@) =~= cell_views(self.references@));
            assert(builder.data@ =~= self.data@);
        }
        builder
    }
}

impl BuilderData {
    /// A builder without data or references.
    pub fn new() -> (builder: Self)
        ensures
            builder@ == CellView::empty(),
    {
        let builder = BuilderData { data: Vec::new(), references: Vec::new() };
        assert(builder@.references =~= Seq::<CellView>::empty());
        builder
    }

    /// Number of bits that a cell holds at most.
    pub fn bits_capacity() -> (n: usize)
        ensures
            n == MAX_DATA_BITS,
    {
        MAX_DATA_BITS
    }

    /// Number of references that a cell holds at most.
    pub fn references_capacity() -> (n: usize)
        ensures
            n == MAX_REFERENCES_COUNT,
    {
        MAX_REFERENCES_COUNT
    }

    /// Number of bits of data held.
    pub fn bits_used(&self) -> (n: usize)
        ensures
            n == self@.data.len(),
    {
        self.data.len()
    }

    /// Number of bits that still fit.
    pub fn bits_free(&self) -> (n: usize)
        requires
            self@.wf(),
        ensures
            n == MAX_DATA_BITS - self@.data.len(),
    {
        MAX_DATA_BITS - self.data.len()
    }

    /// Number of references held.
    pub fn references_used(&self) -> (n: usize)
        ensures
            n == self@.references.len(),
    {
        self.references.len()
    }

    /// Number of references that still fit.
    pub fn references_free(&self) -> (n: usize)
        requires
            self@.wf(),
        ensures
            n == MAX_REFERENCES_COUNT - self@.references.len(),
    {
        MAX_REFERENCES_COUNT - self.references.len()
    }

    /// The bits of data, in order.
    pub fn data(&self) -> (bits: &Vec<bool>)
        ensures
            bits@ == self@.data,
    {
        &self.data
    }

    /// The cell that reference `index` leads to.
    pub fn reference(&self, index: usize) -> (cell: &Cell)
        requires
            index < self@.references.len(),
        ensures
            cell@ == self@.references[index as int],
    {
        &self.references[index]
    }

    /// Puts the first `bits` bits of `slice` behind the data.
    ///
    /// Fails, and leaves the builder as it was, where `slice` holds fewer
    /// bits than that (`NotEnoughData`) or the cell would hold more than
    /// `MAX_DATA_BITS` (`CellOverflow`).
    pub fn append_raw(&mut self, slice: &[u8], bits: usize) -> (result: Result<(), CellError>)
        requires
            old(self)@.wf(),
        ensures
            bits > 8 * slice@.len() ==> result == Err::<(), CellError>(CellError::NotEnoughData),
            bits <= 8 * slice@.len() && old(self)@.data.len() + bits > MAX_DATA_BITS ==> result
                == Err::<(), CellError>(CellError::CellOverflow),
            bits <= 8 * slice@.len() && old(self)@.data.len() + bits <= MAX_DATA_BITS ==> result
                is Ok,
            result is Ok ==> final(self)@ == old(self)@.with_bits(raw_bits(slice@, bits as int)),
            result is Err ==> final(self)@ == old(self)@,
            final(self)@.wf(),
    {
        if bits / 8 > slice.len() || (bits / 8 == slice.len() && bits % 8 != 0) {
            return Err(CellError::NotEnoughData);
        }
        if bits > MAX_DATA_BITS || self.data.len() + bits > MAX_DATA_BITS {
            return Err(CellError::CellOverflow);
        }
        let ghost before = self.data@;
        let mut i: usize = 0;
        while i < bits
            invariant
                i <= bits <= 8 * slice@.len(),
                self.references == old(self).references,
                self.data@ == before + raw_bits(slice@, i as int),
            decreases bits - i,
        {
            let byte = slice[i / 8];
            let bit = (byte >> (7 - i % 8)) & 1 == 1;
            self.data.push(bit);
            i += 1;
            assert(self.data@ =~= before + raw_bits(slice@, i as int));
        }
        Ok(())
    }

    /// Puts a reference to `cell` behind the references, where one still
    /// fits; else fails with `CellOverflow` and leaves the builder as it was.
    pub fn checked_append_reference(&mut self, cell: Cell) -> (result: Result<(), CellError>)
        requires
            old(self)@.wf(),
            cell@.wf(),
        ensures
            old(self)@.references.len() < MAX_REFERENCES_COUNT ==> result is Ok,
            result is Ok ==> final(self)@ == old(self)@.with_reference(cell@),
            result is Err ==> result == Err::<(), CellError>(CellError::CellOverflow),
            result is Err ==> final(self)@ == old(self)@,
            final(self)@.wf(),
    {
        if self.references.len() >= MAX_REFERENCES_COUNT {
            Err(CellError::CellOverflow)
        } else {
            self.append_reference_cell(cell);
            Ok(())
        }
    }

    /// Puts a reference to `cell` behind the references.
    pub fn append_reference_cell(&mut self, cell: Cell)
        requires
            old(self)@.wf(),
            cell@.wf(),
            old(self)@.references.len() < MAX_REFERENCES_COUNT,
        ensures
            final(self)@ == old(self)@.with_reference(cell@),
            final(self)@.wf(),
    {
        self.references.push(cell);
        assert(self@.references =~= old(self)@.references.push(cell@));
    }

    /// Whether the data and the references of `other` still fit.
    pub fn can_append(&self, other: &BuilderData) -> (fits: bool)
        requires
            self@.wf(),
            other@.wf(),
        ensures
            fits == self@.has_room_for(other@),
    {
        self.data.len() + other.data.len() <= MAX_DATA_BITS && self.references.len()
            + other.references.len() <= MAX_REFERENCES_COUNT
    }

    /// Puts the data and the references of `other` behind its own, where
    /// both fit; else leaves the builder as it was and hands `other` back.
    pub fn checked_append_references_and_data(&mut self, other: BuilderData) -> (result: Result<
        (),
        BuilderData,
    >)
        requires
            old(self)@.wf(),
            other@.wf(),
        ensures
            result is Ok <==> old(self)@.has_room_for(other@),
            result is Ok ==> final(self)@ == old(self)@.with_cell(other@),
            result matches Err(back) ==> back@ == other@ && final(self)@ == old(self)@,
            final(self)@.wf(),
    {
        if !self.can_append(&other) {
            return Err(other);
        }
        let mut other = other;
        let ghost theirs = other@;
        self.data.append(&mut other.data);
        self.references.append(&mut other.references);
        assert(self@.references =~= old(self)@.references + theirs.references);
        Ok(())
    }

    /// Closes the builder: the cell that holds what the builder held.
    pub fn into_cell(self) -> (cell: Cell)
        ensures
            cell@ == self@,
    {
        let cell = Cell { data: self.data, references: self.references };
        proof {
            cell.lemma_view();
        }
        cell
    }
}

} // verus!
