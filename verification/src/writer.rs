//! The writer that lays commands out into cells, and the first codepage.

use vstd::prelude::*;
use crate::bitstring::{all_bits, raw_bits};
use crate::cell::{BuilderData, CellView, MAX_DATA_BITS, MAX_REFERENCES_COUNT};
use crate::debug::{DbgNode, DbgNodeView, DbgPos};
use crate::errors::OperationError;

verus! {

/// A cell in the making together with the debug node that shadows it.
pub ghost struct Segment {
    pub cell: CellView,
    pub dbg: DbgNodeView,
}

/// The highest offset that a debug node may bind when it is handed to a
/// writer, so that moving it to any place in a cell stays within `usize`.
pub open spec fn max_offset() -> int {
    usize::MAX - MAX_DATA_BITS
}

impl Segment {
    /// The cell keeps within the capacity of a cell, the debug node has the
    /// shape of the cell, and its offsets leave room to be moved to the end
    /// of a cell.
    pub open spec fn wf(self) -> bool {
        &&& self.cell.wf()
        &&& self.dbg.mirrors(self.cell)
        &&& self.dbg.offsets_within(max_offset() + self.cell.data.len())
    }

    /// One reference of the cell is still free.
    pub open spec fn reserves_slot(self) -> bool {
        self.cell.references.len() < MAX_REFERENCES_COUNT
    }
}

/// The list of segments is not empty, and each segment is well formed and
/// keeps one reference free.
pub open spec fn valid_segments(segments: Seq<Segment>) -> bool {
    &&& segments.len() > 0
    &&& forall|i: int|
        0 <= i < segments.len() ==> (#[trigger] segments[i]).wf() && segments[i].reserves_slot()
}

/// The segments after a command of the bits `bits` with the debug node `dbg`
/// has been written: the bits go behind the data of the last segment, and
/// `dbg` is merged into its debug node at the place where the bits begin;
/// or, where the bits do not fit there, they begin a new segment, whose debug
/// node is `dbg`.
pub open spec fn written(segments: Seq<Segment>, bits: Seq<bool>, dbg: DbgNodeView) -> Seq<Segment> {
    let last = segments.last();
    if last.cell.data.len() + bits.len() <= MAX_DATA_BITS {
        segments.drop_last().push(
            Segment {
                cell: last.cell.with_bits(bits),
                dbg: last.dbg.inlined(last.cell.data.len() as usize, dbg),
            },
        )
    } else {
        segments.push(Segment { cell: CellView::empty().with_bits(bits), dbg })
    }
}

/// The segments after a composite command has been written: the bits `code`
/// and a reference to `reference` go behind what the last segment holds, its
/// debug node binds `pos` to the place where the bits begin and takes `dbg`
/// as a child. Where the bits do not fit there, or fewer than two references
/// are free, the command begins a new segment.
pub open spec fn composed(
    segments: Seq<Segment>,
    code: Seq<bool>,
    reference: CellView,
    pos: DbgPos,
    dbg: DbgNodeView,
) -> Seq<Segment> {
    let last = segments.last();
    if last.cell.references.len() + 1 < MAX_REFERENCES_COUNT && last.cell.data.len() + code.len()
        <= MAX_DATA_BITS {
        segments.drop_last().push(
            Segment {
                cell: last.cell.with_bits(code).with_reference(reference),
                dbg: last.dbg.bound(last.cell.data.len() as usize, pos).with_child(dbg),
            },
        )
    } else {
        segments.push(
            Segment {
                cell: CellView::empty().with_bits(code).with_reference(reference),
                dbg: DbgNodeView::empty().bound(0, pos).with_child(dbg),
            },
        )
    }
}

/// The segment `cursor` taken into the segment `destination` before it:
/// inlined, its data and references behind those of `destination` and its
/// debug node merged at the place where its data begins, where both fit; else
/// linked, as one more reference of `destination` and one more child of its
/// debug node.
pub open spec fn link(destination: Segment, cursor: Segment) -> Segment {
    if destination.cell.has_room_for(cursor.cell) {
        Segment {
            cell: destination.cell.with_cell(cursor.cell),
            dbg: destination.dbg.inlined(destination.cell.data.len() as usize, cursor.dbg),
        }
    } else {
        Segment {
            cell: destination.cell.with_reference(cursor.cell),
            dbg: destination.dbg.with_child(cursor.dbg),
        }
    }
}

/// The one segment that a list of segments comes down to when, from the end
/// of the list, each segment is taken into the one before it.
pub open spec fn linked(segments: Seq<Segment>) -> Segment
    decreases segments.len(),
{
    if segments.len() <= 1 {
        segments[0]
    } else {
        let n = segments.len() as int;
        linked(segments.take(n - 2).push(link(segments[n - 2], segments[n - 1])))
    }
}

/// Writing a command keeps every segment within the capacity of a cell and
/// its debug node in the shape of the cell: bits that do not fit into the
/// last segment open a new one and leave those before untouched.
pub proof fn lemma_written_valid(segments: Seq<Segment>, bits: Seq<bool>, dbg: DbgNodeView)
    requires
        valid_segments(segments),
        bits.len() <= MAX_DATA_BITS,
        dbg.children.len() == 0,
        dbg.offsets_within(max_offset()),
    ensures
        valid_segments(written(segments, bits, dbg)),
        forall|i: int| 0 <= i < segments.len() - 1 ==> written(segments, bits, dbg)[i] == segments[i],
        segments.last().cell.data.len() + bits.len() <= MAX_DATA_BITS ==> written(
            segments,
            bits,
            dbg,
        ).len() == segments.len(),
        segments.last().cell.data.len() + bits.len() > MAX_DATA_BITS ==> written(segments, bits, dbg)
            == segments.push(written(segments, bits, dbg).last()),
{
    let last = segments.last();
    let after = written(segments, bits, dbg);
    assert(last.wf() && last.reserves_slot());
    if last.cell.data.len() + bits.len() <= MAX_DATA_BITS {
        let merged = after.last();
        assert(merged.dbg.children =~= last.dbg.children);
        assert(merged.wf());
        assert forall|i: int| 0 <= i < after.len() implies (#[trigger] after[i]).wf()
            && after[i].reserves_slot() by {
            if i < after.len() - 1 {
                assert(after[i] == segments[i]);
            }
        }
    } else {
        let opened = after.last();
        assert(CellView::empty().with_bits(bits).data =~= bits);
        assert(opened.wf());
        assert forall|i: int| 0 <= i < after.len() implies (#[trigger] after[i]).wf()
            && after[i].reserves_slot() by {
            if i < after.len() - 1 {
                assert(after[i] == segments[i]);
            }
        }
    }
}

/// Writing a composite command keeps every segment within the capacity of a
/// cell, its debug node in the shape of the cell, and one reference of every
/// segment free, that of the segment which took the command as well.
pub proof fn lemma_composed_valid(
    segments: Seq<Segment>,
    code: Seq<bool>,
    reference: CellView,
    pos: DbgPos,
    dbg: DbgNodeView,
)
    requires
        valid_segments(segments),
        code.len() <= MAX_DATA_BITS,
        reference.wf(),
        dbg.mirrors(reference),
    ensures
        valid_segments(composed(segments, code, reference, pos, dbg)),
        composed(segments, code, reference, pos, dbg).last().cell.references.len()
            < MAX_REFERENCES_COUNT,
        forall|i: int|
            0 <= i < segments.len() - 1 ==> composed(segments, code, reference, pos, dbg)[i]
                == segments[i],
{
    let last = segments.last();
    let after = composed(segments, code, reference, pos, dbg);
    assert(last.wf() && last.reserves_slot());
    if last.cell.references.len() + 1 < MAX_REFERENCES_COUNT && last.cell.data.len() + code.len()
        <= MAX_DATA_BITS {
        assert(after.last().wf());
    } else {
        assert(CellView::empty().with_bits(code).data =~= code);
        assert(after.last().wf());
    }
    assert forall|i: int| 0 <= i < after.len() implies (#[trigger] after[i]).wf()
        && after[i].reserves_slot() by {
        if i < after.len() - 1 {
            assert(after[i] == segments[i]);
        }
    }
}

/// Taking a segment into the one before it gives a well-formed segment: the
/// debug node keeps the shape of the cell, inlined or linked.
pub proof fn lemma_link_valid(destination: Segment, cursor: Segment)
    requires
        destination.wf(),
        destination.reserves_slot(),
        cursor.wf(),
    ensures
        link(destination, cursor).wf(),
{
    let joined = link(destination, cursor);
    if destination.cell.has_room_for(cursor.cell) {
        assert forall|i: int| 0 <= i < joined.dbg.children.len() implies (
        #[trigger] joined.dbg.children[i]).mirrors(joined.cell.references[i]) by {
            if i < destination.dbg.children.len() {
                assert(joined.dbg.children[i] == destination.dbg.children[i]);
            } else {
                assert(joined.dbg.children[i] == cursor.dbg.children[i
                    - destination.dbg.children.len()]);
            }
        }
        assert forall|i: int| 0 <= i < joined.cell.references.len() implies (
        #[trigger] joined.cell.references[i]).wf() by {
            if i < destination.cell.references.len() {
                assert(joined.cell.references[i] == destination.cell.references[i]);
            } else {
                assert(joined.cell.references[i] == cursor.cell.references[i
                    - destination.cell.references.len()]);
            }
        }
    } else {
        assert forall|i: int| 0 <= i < joined.dbg.children.len() implies (
        #[trigger] joined.dbg.children[i]).mirrors(joined.cell.references[i]) by {
            if i < destination.dbg.children.len() {
                assert(joined.dbg.children[i] == destination.dbg.children[i]);
            }
        }
        assert forall|i: int| 0 <= i < joined.cell.references.len() implies (
        #[trigger] joined.cell.references[i]).wf() by {
            if i < destination.cell.references.len() {
                assert(joined.cell.references[i] == destination.cell.references[i]);
            }
        }
    }
}

/// A segment whose data and references fit into the room that the segment
/// before it has left is inlined, never linked: the cell of the two holds the
/// data and the references of both and no reference to the second, and the
/// list comes down to one cell fewer than it has segments.
pub proof fn lemma_fitting_segment_is_inlined(destination: Segment, cursor: Segment)
    requires
        destination.cell.data.len() + cursor.cell.data.len() <= MAX_DATA_BITS,
        destination.cell.references.len() + cursor.cell.references.len() <= MAX_REFERENCES_COUNT,
    ensures
        link(destination, cursor).cell.data == destination.cell.data + cursor.cell.data,
        link(destination, cursor).cell.references == destination.cell.references
            + cursor.cell.references,
        link(destination, cursor).dbg == destination.dbg.inlined(
            destination.cell.data.len() as usize,
            cursor.dbg,
        ),
        linked(seq![destination, cursor]) == link(destination, cursor),
{
    let both = seq![destination, cursor];
    assert(both.take(0).push(link(both[0], both[1])) =~= seq![link(destination, cursor)]);
    assert(linked(seq![link(destination, cursor)]) == link(destination, cursor));
}

/// Whatever has been written, the segments come down to a root that keeps
/// within the capacity of a cell and whose debug node has the shape of its
/// cell, reference by reference.
pub proof fn lemma_linked_valid(segments: Seq<Segment>)
    requires
        valid_segments(segments),
    ensures
        linked(segments).wf(),
        linked(segments).dbg.mirrors(linked(segments).cell),
{
    lemma_linked_valid_from(segments);
}

/// The same for a list whose last segment may have used all its references,
/// as the segment has that the others have been taken into.
proof fn lemma_linked_valid_from(segments: Seq<Segment>)
    requires
        segments.len() > 0,
        forall|i: int| 0 <= i < segments.len() ==> (#[trigger] segments[i]).wf(),
        forall|i: int| 0 <= i < segments.len() - 1 ==> (#[trigger] segments[i]).reserves_slot(),
    ensures
        linked(segments).wf(),
    decreases segments.len(),
{
    let n = segments.len() as int;
    if n > 1 {
        let joined = link(segments[n - 2], segments[n - 1]);
        let merged = segments.take(n - 2).push(joined);
        lemma_link_valid(segments[n - 2], segments[n - 1]);
        assert forall|i: int| 0 <= i < merged.len() implies (#[trigger] merged[i]).wf() by {
            if i < n - 2 {
                assert(merged[i] == segments[i]);
            }
        }
        assert forall|i: int| 0 <= i < merged.len() - 1 implies (
        #[trigger] merged[i]).reserves_slot() by {
            assert(merged[i] == segments[i]);
        }
        lemma_linked_valid_from(merged);
    }
}

/// A command as a writer takes it: the bits of a plain command with its debug
/// node, or the code of a composite command with the cell it refers to, the
/// position of the command and the debug node of that cell.
pub ghost enum Command {
    Plain { bits: Seq<bool>, dbg: DbgNodeView },
    Composite { code: Seq<bool>, reference: CellView, pos: DbgPos, dbg: DbgNodeView },
}

impl Command {
    /// Whether a writer takes the command: its bits fit a cell, and its debug
    /// node is one that the write functions ask for.
    pub open spec fn accepted(self) -> bool {
        match self {
            Command::Plain { bits, dbg } => {
                &&& bits.len() <= MAX_DATA_BITS
                &&& dbg.children.len() == 0
                &&& dbg.offsets_within(max_offset())
            },
            Command::Composite { code, reference, pos, dbg } => {
                &&& code.len() <= MAX_DATA_BITS
                &&& reference.wf()
                &&& dbg.mirrors(reference)
            },
        }
    }

    /// The segments after the command has been written.
    pub open spec fn applied(self, segments: Seq<Segment>) -> Seq<Segment> {
        match self {
            Command::Plain { bits, dbg } => written(segments, bits, dbg),
            Command::Composite { code, reference, pos, dbg } => composed(
                segments,
                code,
                reference,
                pos,
                dbg,
            ),
        }
    }
}

/// The segments of a new writer.
pub open spec fn fresh() -> Seq<Segment> {
    seq![Segment { cell: CellView::empty(), dbg: DbgNodeView::empty() }]
}

/// The segments of a new writer after the commands `commands` have been
/// written, one after the other.
pub open spec fn history(commands: Seq<Command>) -> Seq<Segment>
    decreases commands.len(),
{
    if commands.len() == 0 {
        fresh()
    } else {
        commands.last().applied(history(commands.drop_last()))
    }
}

/// Whatever commands a new writer has taken, in whatever order: no segment
/// holds more than 1023 bits of data or more than three references, the last
/// segment too; each debug node has the shape of its cell; and the root that
/// the segments come down to keeps within the capacity of a cell, with a
/// debug node of its shape.
pub proof fn lemma_history_valid(commands: Seq<Command>)
    requires
        forall|i: int| 0 <= i < commands.len() ==> (#[trigger] commands[i]).accepted(),
    ensures
        valid_segments(history(commands)),
        forall|i: int|
            0 <= i < history(commands).len() ==> (#[trigger] history(commands)[i]).cell.data.len()
                <= 1023 && history(commands)[i].cell.references.len() <= 3,
        linked(history(commands)).wf(),
        linked(history(commands)).dbg.mirrors(linked(history(commands)).cell),
    decreases commands.len(),
{
    if commands.len() == 0 {
        assert(fresh()[0].wf());
    } else {
        let before = commands.drop_last();
        assert forall|i: int| 0 <= i < before.len() implies (#[trigger] before[i]).accepted() by {
            assert(before[i] == commands[i]);
        }
        lemma_history_valid(before);
        match commands.last() {
            Command::Plain { bits, dbg } => {
                lemma_written_valid(history(before), bits, dbg);
            },
            Command::Composite { code, reference, pos, dbg } => {
                lemma_composed_valid(history(before), code, reference, pos, dbg);
            },
        }
    }
    lemma_linked_valid(history(commands));
    assert forall|i: int| 0 <= i < history(commands).len() implies (#[trigger] history(
        commands,
    )[i]).cell.data.len() <= 1023 && history(commands)[i].cell.references.len() <= 3 by {
        assert(history(commands)[i].wf() && history(commands)[i].reserves_slot());
    }
}

/// Segments without references come down to a chain of cells: each cell
/// holds the data of some segments in a row and refers to the next cell
/// alone. The last segment may be such a chain already.
pub proof fn lemma_linked_chain(segments: Seq<Segment>)
    requires
        segments.len() > 0,
        forall|i: int|
            0 <= i < segments.len() - 1 ==> (#[trigger] segments[i]).cell.references.len() == 0,
        segments.last().cell.is_chain(),
    ensures
        linked(segments).cell.is_chain(),
    decreases segments.len(),
{
    let n = segments.len() as int;
    if n > 1 {
        let destination = segments[n - 2];
        let cursor = segments[n - 1];
        let joined = link(destination, cursor);
        let merged = segments.take(n - 2).push(joined);
        if destination.cell.has_room_for(cursor.cell) {
            assert(joined.cell.references =~= cursor.cell.references);
        } else {
            assert(joined.cell.references =~= seq![cursor.cell]);
        }
        assert(joined.cell.is_chain());
        assert forall|i: int| 0 <= i < merged.len() - 1 implies (
        #[trigger] merged[i]).cell.references.len() == 0 by {
            assert(merged[i] == segments[i]);
        }
        lemma_linked_chain(merged);
    }
}

/// Plain commands alone leave every segment without references, so that what
/// was written comes down to a chain of cells.
pub proof fn lemma_plain_history_chain(commands: Seq<Command>)
    requires
        forall|i: int| 0 <= i < commands.len() ==> (#[trigger] commands[i]) is Plain,
    ensures
        forall|i: int|
            0 <= i < history(commands).len() ==> (#[trigger] history(
                commands,
            )[i]).cell.references.len() == 0,
        history(commands).len() > 0,
        linked(history(commands)).cell.is_chain(),
    decreases commands.len(),
{
    if commands.len() > 0 {
        let before = commands.drop_last();
        assert forall|i: int| 0 <= i < before.len() implies (#[trigger] before[i]) is Plain by {
            assert(before[i] == commands[i]);
        }
        lemma_plain_history_chain(before);
        let segments = history(before);
        let after = history(commands);
        assert forall|i: int| 0 <= i < after.len() implies (
        #[trigger] after[i]).cell.references.len() == 0 by {
            if i < segments.len() - 1 {
                assert(after[i] == segments[i]);
            } else if i < segments.len() {
                assert(segments[i].cell.references.len() == 0);
            }
        }
    }
    lemma_linked_chain(history(commands));
}

/// The data of all the segments, one behind the other.
pub open spec fn data_of(segments: Seq<Segment>) -> Seq<bool>
    decreases segments.len(),
{
    if segments.len() == 0 {
        Seq::empty()
    } else {
        data_of(segments.drop_last()) + segments.last().cell.data
    }
}

/// The references of all the segments, one behind the other.
pub open spec fn references_of(segments: Seq<Segment>) -> Seq<CellView>
    decreases segments.len(),
{
    if segments.len() == 0 {
        Seq::empty()
    } else {
        references_of(segments.drop_last()) + segments.last().cell.references
    }
}

/// Segments that fit into one cell together come down to one cell: it holds
/// the data and the references of them all, in their order, and none of the
/// segments is linked.
pub proof fn lemma_fitting_segments_are_one_cell(segments: Seq<Segment>)
    requires
        segments.len() > 0,
        data_of(segments).len() <= MAX_DATA_BITS,
        references_of(segments).len() <= MAX_REFERENCES_COUNT,
    ensures
        linked(segments).cell.data == data_of(segments),
        linked(segments).cell.references == references_of(segments),
    decreases segments.len(),
{
    let n = segments.len() as int;
    if n == 1 {
        assert(data_of(segments.drop_last()) =~= Seq::<bool>::empty());
        assert(references_of(segments.drop_last()) =~= Seq::<CellView>::empty());
        assert(data_of(segments) =~= segments[0].cell.data);
        assert(references_of(segments) =~= segments[0].cell.references);
    } else {
        let before = segments.take(n - 2);
        let destination = segments[n - 2];
        let cursor = segments[n - 1];
        let joined = link(destination, cursor);
        let merged = before.push(joined);
        assert(segments.drop_last().drop_last() =~= before);
        assert(segments.drop_last().last() == destination);
        assert(merged.drop_last() =~= before);
        let front = segments.drop_last();
        assert(data_of(front) == data_of(front.drop_last()) + destination.cell.data);
        assert(references_of(front) == references_of(front.drop_last())
            + destination.cell.references);
        assert(data_of(segments) == data_of(front) + cursor.cell.data);
        assert(references_of(segments) == references_of(front) + cursor.cell.references);
        assert(data_of(segments) =~= data_of(before) + destination.cell.data + cursor.cell.data);
        assert(references_of(segments) =~= references_of(before) + destination.cell.references
            + cursor.cell.references);
        assert(destination.cell.has_room_for(cursor.cell));
        assert(data_of(merged) =~= data_of(segments));
        assert(references_of(merged) =~= references_of(segments));
        lemma_fitting_segments_are_one_cell(merged);
    }
}

/// Writes the result of compiling some code.
///
/// A writer holds a list of segments. A command goes to the last segment, or
/// opens a new one where it does not fit; `finalize` takes each segment into
/// the one before it.
pub trait Writer: Sized {
    /// The segments that the writer holds, the one that takes the next
    /// command last.
    spec fn segments(&self) -> Seq<Segment>;

    /// The invariant of the writer. Every writer that a constructor gives
    /// has it, and every operation keeps it.
    spec fn wf(&self) -> bool;

    /// A writer with its invariant holds valid segments: there is one at
    /// least, each keeps within the capacity of a cell with one reference
    /// free, and each debug node has the shape of its cell.
    proof fn lemma_wf_valid(&self)
        requires
            self.wf(),
        ensures
            valid_segments(self.segments()),
    ;

    /// Constructor: one segment, without data or references.
    fn new() -> (writer: Self)
        ensures
            writer.wf(),
            writer.segments() == fresh(),
    ;

    /// Writes a command with no additional data: all the bits of `command`.
    /// The debug node that comes with it has no children, as the command has
    /// no references, and binds no offset above `max_offset()`.
    ///
    /// Fails with `NotFitInSlice`, and changes nothing, where the command
    /// has more than `MAX_DATA_BITS` bits.
    fn write_command(&mut self, command: &[u8], dbg: DbgNode) -> (result: Result<
        (),
        OperationError,
    >)
        requires
            old(self).wf(),
            dbg@.children.len() == 0,
            dbg@.offsets_within(max_offset()),
        ensures
            final(self).wf(),
            valid_segments(final(self).segments()),
            result is Ok <==> 8 * command@.len() <= MAX_DATA_BITS,
            result is Ok ==> final(self).segments() == written(
                old(self).segments(),
                all_bits(command@),
                dbg@,
            ),
            result matches Err(e) ==> e is NotFitInSlice && final(self).segments() == old(
                self,
            ).segments(),
    ;

    /// Writes a command and some bits to the data (bitstring) of a cell: the
    /// first `bits` bits of `command`
    ///
    /// - to the last segment where they fit,
    /// - to a new segment otherwise.
    ///
    /// The debug node that comes with the command has no children, as the
    /// command has no references, and binds no offset above `max_offset()`.
    ///
    /// Fails with `NotFitInSlice`, and changes nothing, where the command
    /// fits no cell: `bits` is more than `MAX_DATA_BITS`, or more than
    /// `command` holds.
    fn write_command_bitstring(&mut self, command: &[u8], bits: usize, dbg: DbgNode) -> (result:
        Result<(), OperationError>)
        requires
            old(self).wf(),
            dbg@.children.len() == 0,
            dbg@.offsets_within(max_offset()),
        ensures
            final(self).wf(),
            valid_segments(final(self).segments()),
            result is Ok <==> bits <= MAX_DATA_BITS && bits <= 8 * command@.len(),
            result is Ok ==> final(self).segments() == written(
                old(self).segments(),
                raw_bits(command@, bits as int),
                dbg@,
            ),
            result matches Err(e) ==> e is NotFitInSlice && final(self).segments() == old(
                self,
            ).segments(),
    ;

    /// Writes a composite command: all the bits of `code` and a reference to
    /// the cell that `reference` holds
    ///
    /// - to the last segment where the bits fit and two references are free,
    ///   one of which stays free,
    /// - to a new segment otherwise.
    ///
    /// The debug node `dbg` stands for the cell of `reference` and has its
    /// shape.
    ///
    /// Fails with `NotFitInSlice`, and changes nothing, where the code has
    /// more than `MAX_DATA_BITS` bits.
    fn write_composite_command(
        &mut self,
        code: &[u8],
        reference: BuilderData,
        pos: DbgPos,
        dbg: DbgNode,
    ) -> (result: Result<(), OperationError>)
        requires
            old(self).wf(),
            reference@.wf(),
            dbg@.mirrors(reference@),
        ensures
            final(self).wf(),
            valid_segments(final(self).segments()),
            final(self).segments().last().reserves_slot(),
            result is Ok <==> 8 * code@.len() <= MAX_DATA_BITS,
            result is Ok ==> final(self).segments() == composed(
                old(self).segments(),
                all_bits(code@),
                reference@,
                pos,
                dbg@,
            ),
            result matches Err(e) ==> e is NotFitInSlice && final(self).segments() == old(
                self,
            ).segments(),
    ;

    /// Finalizes the writing process: the root cell that the segments come
    /// down to and its debug node, which has the shape of the cell down to
    /// the last reference.
    fn finalize(self) -> (root: (BuilderData, DbgNode))
        requires
            self.wf(),
        ensures
            (Segment { cell: root.0@, dbg: root.1@ }) == linked(self.segments()),
            root.0@.wf(),
            root.1@.mirrors(root.0@),
    ;
}

/// First codepage.
///
/// A codepage gives semantics to opcodes. More codepages may be added in the future and modify
/// existing opcodes (semantics or encoding) or add new ones.
pub struct CodePage0 {
    /// List of cells being constructed.
    cells: Vec<BuilderData>,
    /// Debug information (source-position and such) of cells.
    ///
    /// Must have the same length as `cells`.
    dbg: Vec<DbgNode>,
}

/// The segments that a list of cells and a list of debug nodes of the same
/// length stand for.
pub closed spec fn paired(cells: Seq<BuilderData>, dbg: Seq<DbgNode>) -> Seq<Segment> {
    Seq::new(cells.len(), |i: int| Segment { cell: cells[i]@, dbg: dbg[i]@ })
}

/// Each cell with the node in its place is a well-formed segment of a valid
/// writer.
proof fn lemma_paired(cells: Seq<BuilderData>, dbg: Seq<DbgNode>, i: int)
    requires
        cells.len() == dbg.len(),
        valid_segments(paired(cells, dbg)),
        0 <= i < cells.len(),
    ensures
        paired(cells, dbg)[i] == (Segment { cell: cells[i]@, dbg: dbg[i]@ }),
        (Segment { cell: cells[i]@, dbg: dbg[i]@ }).wf(),
        (Segment { cell: cells[i]@, dbg: dbg[i]@ }).reserves_slot(),
{
}

impl Writer for CodePage0 {
    closed spec fn segments(&self) -> Seq<Segment> {
        paired(self.cells@, self.dbg@)
    }

    closed spec fn wf(&self) -> bool {
        &&& self.cells@.len() == self.dbg@.len()
        &&& valid_segments(self.segments())
    }

    proof fn lemma_wf_valid(&self) {
    }

    /// Constructor: one segment, without data or references.
    fn new() -> (writer: Self)
    {
        let mut cells = Vec::new();
        cells.push(BuilderData::new());
        let mut dbg = Vec::new();
        dbg.push(DbgNode::new());
        let writer = Self { cells, dbg };
        assert(writer.segments() =~= seq![
            Segment { cell: CellView::empty(), dbg: DbgNodeView::empty() },
        ]);
        writer
    }

    /// Writes a command: all the bits of `command`.
    ///
    /// Fails with `NotFitInSlice`, and changes nothing, where the command
    /// has more than `MAX_DATA_BITS` bits.
    fn write_command(&mut self, command: &[u8], dbg: DbgNode) -> (result: Result<(), OperationError>)
    {
        if command.len() > MAX_DATA_BITS / 8 {
            return Err(OperationError::NotFitInSlice);
        }
        self.write_command_bitstring(command, command.len() * 8, dbg)
    }

    /// Writes a command to a cell's data: the first `bits` bits of `command`
    ///
    /// - to the last cell in the list of cells where they fit,
    /// - to a new cell otherwise.
    ///
    /// Fails with `NotFitInSlice`, and changes nothing, where the command
    /// fits no cell: `bits` is more than `MAX_DATA_BITS`, or more than
    /// `command` holds.
    fn write_command_bitstring(&mut self, command: &[u8], bits: usize, dbg: DbgNode) -> (result:
        Result<(), OperationError>)
    {
        let ghost before = self.segments();
        proof {
            lemma_paired(self.cells@, self.dbg@, self.cells@.len() - 1);
            if bits <= MAX_DATA_BITS {
                lemma_written_valid(before, raw_bits(command@, bits as int), dbg@);
            }
        }
        if !self.cells.is_empty() {
            let offset = self.cells.last().unwrap().bits_used();
            if self.cells.last_mut().unwrap().append_raw(command, bits).is_ok() {
                self.dbg.last_mut().unwrap().inline_node(offset, dbg);
                assert(self.segments() =~= written(before, raw_bits(command@, bits as int), dbg@));
                return Ok(());
            }
        }
        let mut code = BuilderData::new();
        if code.append_raw(command, bits).is_ok() {
            self.cells.push(code);
            self.dbg.push(dbg);
            assert(self.segments() =~= written(before, raw_bits(command@, bits as int), dbg@));
            return Ok(());
        }
        assert(self.segments() =~= before);
        Err(OperationError::NotFitInSlice)
    }

    /// Writes a composite command: all the bits of `command` and a reference
    /// to the cell that `reference` holds
    ///
    /// - to the last cell in the list of cells where the bits fit and two
    ///   references are free, one of which stays free,
    /// - to a new cell otherwise.
    ///
    /// Fails with `NotFitInSlice`, and changes nothing, where the command
    /// has more than `MAX_DATA_BITS` bits.
    fn write_composite_command(
        &mut self,
        command: &[u8],
        reference: BuilderData,
        pos: DbgPos,
        dbg: DbgNode,
    ) -> (result: Result<(), OperationError>)
    {
        let ghost before = self.segments();
        if command.len() > MAX_DATA_BITS / 8 {
            return Err(OperationError::NotFitInSlice);
        }
        proof {
            lemma_paired(self.cells@, self.dbg@, self.cells@.len() - 1);
            lemma_composed_valid(before, all_bits(command@), reference@, pos, dbg@);
        }
        let cell = reference.into_cell();
        if !self.cells.is_empty() {
            let last = self.cells.last_mut().unwrap();
            let offset = last.bits_used();
            if last.references_free() > 1  // one cell remains reserved for finalization
             && last.append_raw(command, command.len() * 8).is_ok() {
                last.append_reference_cell(cell);
                let node = self.dbg.last_mut().unwrap();
                node.append(offset, pos);
                node.append_node(dbg);
                assert(self.segments() =~= composed(
                    before,
                    all_bits(command@),
                    reference@,
                    pos,
                    dbg@,
                ));
                return Ok(());
            }
        }
        let mut code = BuilderData::new();
        if code.append_raw(command, command.len() * 8).is_ok() && code.checked_append_reference(
            cell,
        ).is_ok() {
            self.cells.push(code);

            let mut node = DbgNode::new();
            node.append(0, pos);
            node.append_node(dbg);
            self.dbg.push(node);
            assert(self.segments() =~= composed(
                before,
                all_bits(command@),
                reference@,
                pos,
                dbg@,
            ));
            return Ok(());
        }
        Err(OperationError::NotFitInSlice)
    }

    /// Finalizes the writer.
    ///
    /// Say the list of cells in `self` is `c_0, c_1, ..., c_n`. Then this function adds `c_i` as a
    /// *"reference"* of `c_i-1` for `i > 1`, and yields `c_0`. It might not be added as an actual
    /// reference though, if possible `c_i` will be inlined in `c_i-1`; *possible* here means that
    /// `c_i-1` has room for the data and the cell-refs of `c_i`.
    fn finalize(self) -> (root: (BuilderData, DbgNode))
    {
        let ghost all = self.segments();
        let mut cells = self.cells;
        let mut nodes = self.dbg;
        let mut cursor = cells.pop().unwrap();
        let mut dbg = nodes.pop().unwrap();
        proof {
            assert(all =~= paired(cells@, nodes@).push(Segment { cell: cursor@, dbg: dbg@ }));
            assert forall|i: int| 0 <= i < cells@.len() implies (#[trigger] paired(
                cells@,
                nodes@,
            )[i]).wf() && paired(cells@, nodes@)[i].reserves_slot() by {
                assert(paired(cells@, nodes@)[i] == all[i]);
            }
            assert(all[cells@.len() as int] == (Segment { cell: cursor@, dbg: dbg@ }));
        }
        while !cells.is_empty()
            invariant
                cells@.len() == nodes@.len(),
                forall|i: int|
                    0 <= i < cells@.len() ==> (#[trigger] paired(cells@, nodes@)[i]).wf() && paired(
                        cells@,
                        nodes@,
                    )[i].reserves_slot(),
                (Segment { cell: cursor@, dbg: dbg@ }).wf(),
                linked(all) == linked(
                    paired(cells@, nodes@).push((Segment { cell: cursor@, dbg: dbg@ })),
                ),
            decreases cells@.len(),
        {
            let ghost rest = paired(cells@, nodes@);
            let ghost cur = Segment { cell: cursor@, dbg: dbg@ };
            let mut destination = cells.pop().unwrap();
            let offset = destination.bits_used();
            let mut next = nodes.pop().unwrap();
            let ghost dest = Segment { cell: destination@, dbg: next@ };
            proof {
                let n = rest.len() as int;
                assert(rest[n - 1] == dest);
                assert(rest.push(cur).take(n - 1) =~= paired(cells@, nodes@));
                assert(rest.push(cur)[n - 1] == dest);
                assert(rest.push(cur)[n] == cur);
                assert forall|i: int| 0 <= i < cells@.len() implies (#[trigger] paired(
                    cells@,
                    nodes@,
                )[i]).wf() && paired(cells@, nodes@)[i].reserves_slot() by {
                    assert(paired(cells@, nodes@)[i] == rest[i]);
                }
                lemma_link_valid(dest, cur);
            }
            // Try to inline `cursor` into `destination`.
            //
            // Only possible if the `destination` has enough free ref-cells to store `cursor`'s
            // ref-cells.
            if destination.references_free() >= cursor.references_used() {
                match destination.checked_append_references_and_data(cursor) {
                    Ok(()) => {
                        next.inline_node(offset, dbg);
                    },
                    Err(back) => {
                        destination.append_reference_cell(back.into_cell());
                        next.append_node(dbg);
                    },
                }
            } else {
                // Otherwise just add `cursor` to `destination` as a reference.
                destination.append_reference_cell(cursor.into_cell());
                next.append_node(dbg);
            }
            cursor = destination;
            dbg = next;
            assert(Segment { cell: cursor@, dbg: dbg@ } == link(dest, cur));
        }
        assert(paired(cells@, nodes@).push(Segment { cell: cursor@, dbg: dbg@ }) =~= seq![
            Segment { cell: cursor@, dbg: dbg@ },
        ]);
        (cursor, dbg)
    }
}

} // verus!
