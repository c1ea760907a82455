//! Debug information: where in the source each part of a cell comes from.

use std::collections::BTreeMap;
use vstd::prelude::*;
use vstd::std_specs::cmp::OrdSpec;
use vstd::std_specs::iter::IteratorSpec;
use crate::cell::{BuilderData, Cell, CellView};
use crate::hash::{key_le, UInt256};
use crate::numeral::{decimal, decimal_text};

verus! {

/// Alias for a [`Vec`] of [`Line`].
pub type Lines = Vec<Line>;

/// Content of a line ([`String`]) and [`DbgPos`] information.
#[derive(Debug, PartialEq)]
pub struct Line {
    /// Content of the line.
    pub text: String,
    /// Position information.
    pub pos: DbgPos,
}

impl Clone for Line {
    fn clone(&self) -> (line: Self)
        ensures
            line == *self,
    {
        Line { text: self.text.clone(), pos: self.pos.clone() }
    }
}

impl Line {
    /// Constructor.
    pub fn new(text: &str, filename: &str, line: usize) -> (result: Self)
        ensures
            result.text@ == text@,
            result.pos.filename@ == filename@,
            result.pos.line == line,
            result.pos.line_code == line,
    {
        Line {
            text: String::from_str(text),
            pos: DbgPos { filename: String::from_str(filename), line, line_code: line },
        }
    }

    /// Constructor with a custom line code.
    pub fn new_extended(text: &str, filename: &str, line: usize, line_code: usize) -> (result: Self)
        ensures
            result.text@ == text@,
            result.pos.filename@ == filename@,
            result.pos.line == line,
            result.pos.line_code == line_code,
    {
        Line {
            text: String::from_str(text),
            pos: DbgPos { filename: String::from_str(filename), line, line_code },
        }
    }
}

/// The texts of the first `upto` of `lines`, one behind the other.
pub open spec fn joined_text(lines: Seq<Line>, upto: int) -> Seq<char>
    decreases upto,
{
    if 0 < upto <= lines.len() {
        joined_text(lines, upto - 1) + lines[upto - 1].text@
    } else {
        Seq::empty()
    }
}

/// The texts of all the lines, one behind the other.
pub fn lines_to_string(lines: &Lines) -> (result: String)
    ensures
        result@ == joined_text(lines@, lines@.len() as int),
{
    let mut result = String::new();
    let n = lines.len();
    for i in 0..n
        invariant
            n == lines@.len(),
            result@ == joined_text(lines@, i as int),
    {
        result.append(lines[i].text.as_str());
    }
    result
}

/// Position information for lines.
#[derive(Debug, PartialEq)]
pub struct DbgPos {
    /// Name of the source file, empty for *none*.
    pub filename: String,
    /// Line number.
    pub line: usize,
    /// Line code, left out when the position is shown.
    pub line_code: usize,
}

impl Clone for DbgPos {
    fn clone(&self) -> (pos: Self)
        ensures
            pos == *self,
    {
        DbgPos { filename: self.filename.clone(), line: self.line, line_code: self.line_code }
    }
}

impl Default for DbgPos {
    fn default() -> (pos: Self)
        ensures
            pos.filename@ == Seq::<char>::empty(),
            pos.line == 0,
            pos.line_code == 0,
    {
        Self { filename: String::new(), line: 0, line_code: 0 }
    }
}

impl DbgPos {
    /// The text of the position: the file name, or `<none>` where it is
    /// empty, and the line number behind a `:`.
    pub open spec fn text(&self) -> Seq<char> {
        (if self.filename@.len() == 0 {
            "<none>"@
        } else {
            self.filename@
        }) + ":"@ + decimal_text(self.line as nat)
    }

    /// Writes the position as `file:line`, with `<none>` for a file without
    /// name.
    pub fn to_string(&self) -> (s: String)
        ensures
            s@ == self.text(),
    {
        let mut s = if self.filename.as_str().is_empty() {
            String::from_str("<none>")
        } else {
            self.filename.clone()
        };
        s.append(":");
        s.append(decimal(self.line).as_str());
        s
    }
}

/// A map from offsets (for cell data) to position information.
pub type OffsetPos = BTreeMap<usize, DbgPos>;

/// The offsets `offsets`, each moved up by `offset`.
pub open spec fn shifted(offsets: Map<usize, DbgPos>, offset: usize) -> Map<usize, DbgPos> {
    Map::new(
        |k: usize| k >= offset && offsets.contains_key((k - offset) as usize),
        |k: usize| offsets[(k - offset) as usize],
    )
}

/// Whether `keys` lists the offsets bound in `offsets`, each once and in
/// rising order.
pub open spec fn lists_offsets(keys: Seq<usize>, offsets: Map<usize, DbgPos>) -> bool {
    &&& forall|i: int, j: int| 0 <= i < j < keys.len() ==> keys[i] < keys[j]
    &&& forall|i: int| 0 <= i < keys.len() ==> offsets.contains_key(#[trigger] keys[i])
    &&& forall|k: usize| offsets.contains_key(k) ==> keys.contains(k)
}

/// A line for each of the first `upto` of `keys`: the offset, a `:` and the
/// position bound to it.
pub open spec fn offsets_text(keys: Seq<usize>, offsets: Map<usize, DbgPos>, upto: int) -> Seq<char>
    decreases upto,
{
    if 0 < upto <= keys.len() {
        offsets_text(keys, offsets, upto - 1) + decimal_text(keys[upto - 1] as nat) + ":"@
            + offsets[keys[upto - 1]].text() + "\n"@
    } else {
        Seq::empty()
    }
}

/// What a debug node holds: the positions bound to offsets in the data of
/// its cell, and a node for each reference of the cell.
pub ghost struct DbgNodeView {
    pub offsets: Map<usize, DbgPos>,
    pub children: Seq<DbgNodeView>,
}

impl DbgNodeView {
    /// The node without offsets or children.
    pub open spec fn empty() -> DbgNodeView {
        DbgNodeView { offsets: Map::empty(), children: Seq::empty() }
    }

    /// The node with `pos` bound to `offset`, in place of what was bound to
    /// it.
    pub open spec fn bound(self, offset: usize, pos: DbgPos) -> DbgNodeView {
        DbgNodeView { offsets: self.offsets.insert(offset, pos), children: self.children }
    }

    /// The node with `child` behind its children.
    pub open spec fn with_child(self, child: DbgNodeView) -> DbgNodeView {
        DbgNodeView { offsets: self.offsets, children: self.children.push(child) }
    }

    /// Whether the node has the shape of `cell`: as many children as the cell
    /// has references, and each child the shape of the cell that the
    /// reference in its place leads to.
    pub open spec fn mirrors(self, cell: CellView) -> bool
        decreases self,
    {
        &&& self.children.len() == cell.references.len()
        &&& forall|i: int|
            0 <= i < self.children.len() ==> (#[trigger] self.children[i]).mirrors(
                cell.references[i],
            )
    }

    /// Whether no offset bound in the node lies above `limit`.
    pub open spec fn offsets_within(self, limit: int) -> bool {
        forall|k: usize| self.offsets.contains_key(k) ==> k <= limit
    }

    /// The node merged with `other`: the offsets of `other`, moved up by
    /// `offset`, are bound in place of what was bound to them, and the
    /// children of `other` come behind its own.
    pub open spec fn inlined(self, offset: usize, other: DbgNodeView) -> DbgNodeView {
        DbgNodeView {
            offsets: self.offsets.union_prefer_right(shifted(other.offsets, offset)),
            children: self.children + other.children,
        }
    }

    /// Whether the node has the shape of the hashed cell `cell`: as many
    /// children as the cell has references, and each child the shape of the
    /// cell that the reference in its place leads to.
    pub open spec fn pairs_with(self, cell: HashedCell) -> bool
        decreases self,
    {
        &&& self.children.len() == cell.references@.len()
        &&& forall|i: int|
            0 <= i < self.children.len() ==> (#[trigger] self.children[i]).pairs_with(
                cell.references@[i],
            )
    }

    /// The text of the node, its offsets taken in the order of `keys`: a line
    /// for each offset, and then the count of children.
    pub open spec fn text(self, keys: Seq<usize>) -> Seq<char> {
        offsets_text(keys, self.offsets, keys.len() as int) + decimal_text(self.children.len())
            + " children"@
    }
}

/// Information about the components of a node (cell).
pub struct DbgNode {
    /// Maps data-offsets to position information.
    pub offsets: OffsetPos,
    /// List of children (cell references) position information.
    pub children: Vec<DbgNode>,
}

impl View for DbgNode {
    type V = DbgNodeView;

    open spec fn view(&self) -> DbgNodeView
        decreases self,
    {
        DbgNodeView {
            offsets: self.offsets@,
            children: Seq::new(
                self.children@.len(),
                |i: int|
                    if 0 <= i < self.children@.len() {
                        self.children@[i].view()
                    } else {
                        DbgNodeView::empty()
                    },
            ),
        }
    }
}

impl Clone for DbgNode {
    fn clone(&self) -> (node: Self)
        ensures
            node@ == self@,
    {
        self.duplicate()
    }
}

/// Keys that the map hands out in its order rise.
proof fn lemma_rising_keys(keys: Seq<usize>)
    requires
        vstd::std_specs::btree::increasing_seq(keys),
    ensures
        forall|i: int, j: int| 0 <= i < j < keys.len() ==> keys[i] < keys[j],
{
    broadcast use vstd::std_specs::btree::axiom_increasing_seq_meaning;

    assert(vstd::laws_cmp::obeys_cmp::<usize>());
    assert forall|i: int, j: int| 0 <= i < j < keys.len() implies keys[i] < keys[j] by {
        assert(keys[i].cmp_spec(&keys[j]) is Less);
    }
}

impl DbgNode {
    /// Constructs an empty node.
    pub fn new() -> (node: Self)
        ensures
            node@ == DbgNodeView::empty(),
    {
        let node = Self { offsets: OffsetPos::new(), children: Vec::new() };
        assert(node@.children =~= Seq::<DbgNodeView>::empty());
        node
    }

    /// Constructs a node with the data at offset `0` associated to `pos`.
    pub fn from(pos: DbgPos) -> (node: Self)
        ensures
            node@ == DbgNodeView::empty().bound(0, pos),
    {
        let mut node = Self::new();
        node.offsets.insert(0, pos);
        node
    }

    /// Registers an `offset`/`pos`ition association.
    ///
    /// **Overwrites** the previous binding, if any.
    pub fn append(&mut self, offset: usize, pos: DbgPos)
        ensures
            final(self)@ == old(self)@.bound(offset, pos),
    {
        self.offsets.insert(offset, pos);
    }

    /// Appends a node to **the children** of `self`, which may hold four at
    /// most.
    pub fn append_node(&mut self, dbg: DbgNode)
        requires
            old(self)@.children.len() < 4,
        ensures
            final(self)@ == old(self)@.with_child(dbg@),
    {
        self.children.push(dbg);
        assert(self@.children =~= old(self)@.children.push(dbg@));
    }

    /// Merges `self` with the content (offsets and children) of `dbg` with an `offset`.
    ///
    /// Where `self` has a binding for one of the moved offsets, it is overwritten.
    pub fn inline_node(&mut self, offset: usize, dbg: DbgNode)
        requires
            old(self)@.children.len() + dbg@.children.len() <= 4,
            forall|k: usize| dbg@.offsets.contains_key(k) ==> k + offset <= usize::MAX,
        ensures
            final(self)@ == old(self)@.inlined(offset, dbg@),
    {
        let ghost before = self.offsets@;
        let ghost theirs = dbg.offsets@;
        assert(dbg@.offsets == theirs);
        let entries = dbg.offsets.iter();
        for entry in it: entries
            invariant
                it.seq() == entries.remaining(),
                theirs == dbg.offsets@,
                self.children == old(self).children,
                forall|k: usize| theirs.contains_key(k) ==> k + offset <= usize::MAX,
                forall|j: int|
                    0 <= j < it.seq().len() ==> theirs.contains_key(*(#[trigger] it.seq()[j]).0)
                        && theirs[*it.seq()[j].0] == *it.seq()[j].1,
                forall|j: int|
                    0 <= j < it.index() ==> self.offsets@.contains_key(
                        (*(#[trigger] it.seq()[j]).0 + offset) as usize,
                    ) && self.offsets@[(*it.seq()[j].0 + offset) as usize] == *it.seq()[j].1,
                forall|k: usize|
                    self.offsets@.contains_key(k) ==> before.contains_key(k) || shifted(
                        theirs,
                        offset,
                    ).contains_key(k),
                forall|k: usize| before.contains_key(k) ==> self.offsets@.contains_key(k),
                forall|k: usize|
                    before.contains_key(k) && !shifted(theirs, offset).contains_key(k)
                        ==> self.offsets@[k] == before[k],
        {
            self.offsets.insert(*entry.0 + offset, entry.1.clone());
        }
        proof {
            let merged = before.union_prefer_right(shifted(theirs, offset));
            assert forall|k: usize| merged.contains_key(k) implies self.offsets@.contains_key(k)
                && self.offsets@[k] == merged[k] by {
                if shifted(theirs, offset).contains_key(k) {
                    let key = (k - offset) as usize;
                    assert(entries.remaining().contains((&key, &theirs[key])));
                    let j = choose|j: int|
                        0 <= j < entries.remaining().len() && entries.remaining()[j] == (
                            &key,
                            &theirs[key],
                        );
                    assert(*entries.remaining()[j].0 == key);
                }
            }
            assert(self.offsets@ =~= merged);
        }
        let ghost mine = self@.children;
        let ghost total = dbg@.children;
        let children = dbg.children.into_iter();
        for child in ic: children
            invariant
                ic.seq() == children.remaining(),
                ic.seq().len() == total.len(),
                forall|j: int| 0 <= j < total.len() ==> (#[trigger] ic.seq()[j])@ == total[j],
                mine.len() + total.len() <= 4,
                self.offsets@ == before.union_prefer_right(shifted(theirs, offset)),
                self@.children == mine + total.take(ic.index()),
        {
            self.append_node(child);
            assert(self@.children =~= mine + total.take(ic.index() + 1));
        }
        assert(total.take(total.len() as int) =~= total);
    }

    /// What the view of a node is made of.
    proof fn lemma_view(&self)
        ensures
            self@.offsets == self.offsets@,
            self@.children.len() == self.children@.len(),
            forall|i: int|
                0 <= i < self.children@.len() ==> self@.children[i] == (
                #[trigger] self.children@[i])@,
    {
    }

    /// A copy of the node and of all nodes below it.
    fn duplicate(&self) -> (node: Self)
        ensures
            node@ == self@,
        decreases self,
    {
        let mut children: Vec<DbgNode> = Vec::new();
        let n = self.children.len();
        for i in 0..n
            invariant
                n == self.children@.len(),
                children@.len() == i,
                forall|j: int| 0 <= j < i ==> (#[trigger] children@[j])@ == self.children@[j]@,
        {
            children.push(self.children[i].duplicate());
        }
        let node = DbgNode { offsets: self.offsets.clone(), children };
        assert(node@.children =~= self@.children);
        node
    }

    /// Writes the node on several lines: for each offset, in rising order, a
    /// line with the offset and the position bound to it, and on the last
    /// line the count of children.
    pub fn to_string(&self) -> (s: String)
        ensures
            exists|keys: Seq<usize>| lists_offsets(keys, self@.offsets) && s@ == self@.text(keys),
    {
        let mut s = String::new();
        let entries = self.offsets.iter();
        let ghost keys = entries.remaining().map_values(|kv: (&usize, &DbgPos)| *kv.0);
        proof {
            lemma_rising_keys(keys);
            assert forall|k: usize| self.offsets@.contains_key(k) implies keys.contains(k) by {
                assert(entries.remaining().contains((&k, &self.offsets@[k])));
                let j = choose|j: int|
                    0 <= j < entries.remaining().len() && entries.remaining()[j] == (
                        &k,
                        &self.offsets@[k],
                    );
                assert(keys[j] == k);
            }
            assert forall|i: int| 0 <= i < keys.len() implies self.offsets@.contains_key(
                #[trigger] keys[i],
            ) by {
                assert(self.offsets@.contains_key(*entries.remaining()[i].0));
            }
            assert(lists_offsets(keys, self@.offsets));
        }
        for entry in it: entries
            invariant
                it.seq() == entries.remaining(),
                keys == entries.remaining().map_values(|kv: (&usize, &DbgPos)| *kv.0),
                forall|j: int|
                    0 <= j < it.seq().len() ==> self.offsets@.contains_key(
                        *(#[trigger] it.seq()[j]).0,
                    ) && self.offsets@[*it.seq()[j].0] == *it.seq()[j].1,
                s@ == offsets_text(keys, self.offsets@, it.index()),
        {
            let ghost i = it.index();
            let ghost before = s@;
            assert(keys[i] == *entry.0);
            s.append(decimal(*entry.0).as_str());
            s.append(":");
            s.append(entry.1.to_string().as_str());
            s.append("\n");
            assert(s@ =~= before + decimal_text(keys[i] as nat) + ":"@ + self.offsets@[keys[i]].text()
                + "\n"@);
        }
        s.append(decimal(self.children.len()).as_str());
        s.append(" children");
        proof {
            self.lemma_view();
            assert(s@ =~= self@.text(keys));
        }
        s
    }

    /// Whether no offset bound in the node lies above `limit`.
    pub fn offsets_within(&self, limit: usize) -> (within: bool)
        ensures
            within == self@.offsets_within(limit as int),
    {
        let entries = self.offsets.iter();
        for entry in it: entries
            invariant
                it.seq() == entries.remaining(),
                entries == self.offsets.iter(),
                self@.offsets == self.offsets@,
                forall|j: int|
                    0 <= j < it.seq().len() ==> self.offsets@.contains_key(
                        *(#[trigger] it.seq()[j]).0,
                    ),
                forall|j: int| 0 <= j < it.index() ==> *(#[trigger] it.seq()[j]).0 <= limit,
        {
            if *entry.0 > limit {
                proof {
                    assert(self.offsets@.contains_key(*entry.0));
                }
                return false;
            }
        }
        proof {
            assert(self@.offsets == self.offsets@);
            assert forall|k: usize| self.offsets@.contains_key(k) implies k <= limit by {
                assert(entries.remaining().contains((&k, &self.offsets@[k])));
                let j = choose|j: int|
                    0 <= j < entries.remaining().len() && entries.remaining()[j] == (
                        &k,
                        &self.offsets@[k],
                    );
                assert(*entries.remaining()[j].0 == k);
            }
        }
        true
    }

    /// Whether the node has the shape of the hashed cell `cell`.
    pub fn pairs_with(&self, cell: &HashedCell) -> (pairs: bool)
        ensures
            pairs == self@.pairs_with(*cell),
        decreases self,
    {
        proof {
            self.lemma_view();
        }
        let n = self.children.len();
        if n != cell.references.len() {
            return false;
        }
        for i in 0..n
            invariant
                n == self.children@.len(),
                n == cell.references@.len(),
                self@.children.len() == n,
                forall|j: int| 0 <= j < n ==> self@.children[j] == (#[trigger] self.children@[j])@,
                forall|j: int|
                    0 <= j < i ==> (#[trigger] self@.children[j]).pairs_with(cell.references@[j]),
        {
            if !self.children[i].pairs_with(&cell.references[i]) {
                assert(!self@.children[i as int].pairs_with(cell.references@[i as int]));
                return false;
            }
        }
        true
    }

    /// Whether the node has the shape of the finished cell `cell`.
    pub fn mirrors_cell(&self, cell: &Cell) -> (mirrors: bool)
        ensures
            mirrors == self@.mirrors(cell@),
        decreases self,
    {
        proof {
            self.lemma_view();
        }
        let n = self.children.len();
        if n != cell.references_count() {
            return false;
        }
        for i in 0..n
            invariant
                n == self.children@.len(),
                n == cell@.references.len(),
                self@.children.len() == n,
                forall|j: int| 0 <= j < n ==> self@.children[j] == (#[trigger] self.children@[j])@,
                forall|j: int|
                    0 <= j < i ==> (#[trigger] self@.children[j]).mirrors(cell@.references[j]),
        {
            if !self.children[i].mirrors_cell(cell.reference(i)) {
                assert(!self@.children[i as int].mirrors(cell@.references[i as int]));
                return false;
            }
        }
        true
    }

    /// Whether the node has the shape of the cell that `builder` holds.
    pub fn mirrors_builder(&self, builder: &BuilderData) -> (mirrors: bool)
        ensures
            mirrors == self@.mirrors(builder@),
    {
        proof {
            self.lemma_view();
        }
        let n = self.children.len();
        if n != builder.references_used() {
            return false;
        }
        for i in 0..n
            invariant
                n == self.children@.len(),
                n == builder@.references.len(),
                self@.children.len() == n,
                forall|j: int| 0 <= j < n ==> self@.children[j] == (#[trigger] self.children@[j])@,
                forall|j: int|
                    0 <= j < i ==> (#[trigger] self@.children[j]).mirrors(builder@.references[j]),
        {
            if !self.children[i].mirrors_cell(builder.reference(i)) {
                assert(!self@.children[i as int].mirrors(builder@.references[i as int]));
                return false;
            }
        }
        true
    }
}

/// A cell as the debug index reads it: its representation hash, and the cells
/// that it refers to.
#[derive(Debug, PartialEq, Eq)]
pub struct HashedCell {
    /// Representation hash of the cell.
    pub hash: UInt256,
    /// The cells that the references of the cell lead to, in their order.
    pub references: Vec<HashedCell>,
}

impl HashedCell {
    /// Number of cells in the tree below and with the cell, each counted as
    /// often as a path leads to it.
    pub open spec fn size(self) -> nat
        decreases self, 0int,
    {
        1 + sizes(self.references@, self.references@.len() as int)
    }
}

impl HashedCell {
    /// Whether the hashed cell has the shape of `cell`: as many references,
    /// and behind each reference a cell of the shape of the one in its place.
    pub open spec fn shaped_like(self, cell: CellView) -> bool
        decreases self,
    {
        &&& self.references@.len() == cell.references.len()
        &&& forall|i: int|
            0 <= i < self.references@.len() ==> (#[trigger] self.references@[i]).shaped_like(
                cell.references[i],
            )
    }

    /// Whether `cell` is this cell or one of the cells below it.
    pub open spec fn reaches(self, cell: HashedCell) -> bool
        decreases self,
    {
        self == cell || exists|i: int|
            0 <= i < self.references@.len() && (#[trigger] self.references@[i]).reaches(cell)
    }

    /// Whether `key` is the key of the hash of this cell or of a cell below
    /// it.
    pub open spec fn holds(self, key: (u128, u128)) -> bool {
        exists|cell: HashedCell| #[trigger] self.reaches(cell) && cell.hash.key() == key
    }

    /// Whether the hashed cell has the shape of the finished cell `cell`.
    pub fn has_shape_of(&self, cell: &Cell) -> (same: bool)
        ensures
            same == self.shaped_like(cell@),
        decreases self,
    {
        let n = self.references.len();
        if n != cell.references_count() {
            return false;
        }
        for i in 0..n
            invariant
                n == self.references@.len(),
                n == cell@.references.len(),
                forall|j: int|
                    0 <= j < i ==> (#[trigger] self.references@[j]).shaped_like(
                        cell@.references[j],
                    ),
        {
            if !self.references[i].has_shape_of(cell.reference(i)) {
                assert(!self.references@[i as int].shaped_like(cell@.references[i as int]));
                return false;
            }
        }
        true
    }
}

/// A debug node with the shape of a cell has the shape of the hashed cell
/// that was made of it: what `finalize` gives can be walked once the cell
/// has its hashes.
pub proof fn lemma_mirrors_pairs(dbg: DbgNodeView, cell: CellView, hashed: HashedCell)
    requires
        dbg.mirrors(cell),
        hashed.shaped_like(cell),
    ensures
        dbg.pairs_with(hashed),
    decreases dbg,
{
    assert forall|i: int| 0 <= i < dbg.children.len() implies (#[trigger] dbg.children[i]).pairs_with(
        hashed.references@[i],
    ) by {
        assert(hashed.references@[i].shaped_like(cell.references[i]));
        lemma_mirrors_pairs(dbg.children[i], cell.references[i], hashed.references@[i]);
    }
}

/// Sum of the sizes of the first `upto` cells of `cells`.
pub open spec fn sizes(cells: Seq<HashedCell>, upto: int) -> nat
    decreases cells, upto,
{
    if 0 < upto <= cells.len() {
        sizes(cells, upto - 1) + cells[upto - 1].size()
    } else {
        0
    }
}

/// What a debug index holds: for each hash filed, the positions bound to
/// offsets in the data of the cell with that hash.
pub type DbgInfoView = Map<(u128, u128), Map<usize, DbgPos>>;

/// The ordered map that a debug index files its bindings in.
pub type HashIndex = BTreeMap<(u128, u128), OffsetPos>;

/// Stores data-offset position information for a bunch of cells.
///
/// Note that this type stores nothing about the sub-cells of each cell, as opposed to [`DbgNode`].
#[derive(Debug)]
pub struct DbgInfo {
    /// Maps cell-hashes to data-offset position information.
    pub map: HashIndex,
}

impl View for DbgInfo {
    type V = DbgInfoView;

    open spec fn view(&self) -> DbgInfoView {
        Map::new(|k: (u128, u128)| self.map@.contains_key(k), |k: (u128, u128)| self.map@[k]@)
    }
}

/// Whether `k` comes first among the keys of `index`.
pub open spec fn least_key(index: DbgInfoView, k: (u128, u128)) -> bool {
    forall|other: (u128, u128)| index.contains_key(other) ==> key_le(k, other)
}

/// The index `index` with `offsets` filed under `key`, unless something is
/// filed under `key` already: then the index stays as it is.
pub open spec fn filed(index: DbgInfoView, key: (u128, u128), offsets: Map<usize, DbgPos>) -> DbgInfoView {
    if index.contains_key(key) {
        index
    } else {
        index.insert(key, offsets)
    }
}

/// The index after a walk through the tree of `cell` together with `dbg`:
/// the offsets of `dbg` are filed under the hash of `cell` unless something
/// is filed there, and then each reference is walked with the child of `dbg`
/// in its place, from the first to the last.
pub open spec fn collected(index: DbgInfoView, cell: HashedCell, dbg: DbgNodeView) -> DbgInfoView
    decreases cell, 0int,
{
    collected_upto(
        filed(index, cell.hash.key(), dbg.offsets),
        cell.references@,
        dbg.children,
        cell.references@.len() as int,
    )
}

/// The index after the walks through the first `upto` of `cells`, each with
/// the node of `nodes` in its place, from the first on.
pub open spec fn collected_upto(
    index: DbgInfoView,
    cells: Seq<HashedCell>,
    nodes: Seq<DbgNodeView>,
    upto: int,
) -> DbgInfoView
    decreases cells, upto,
{
    if 0 < upto <= cells.len() {
        collected(collected_upto(index, cells, nodes, upto - 1), cells[upto - 1], nodes[upto - 1])
    } else {
        index
    }
}

/// The index after a walk through the tree of `cell` together with `dbg`
/// that takes the references of each cell from the last to the first.
pub open spec fn collected_backwards(
    index: DbgInfoView,
    cell: HashedCell,
    dbg: DbgNodeView,
) -> DbgInfoView
    decreases cell, 0int,
{
    collected_down_to(filed(index, cell.hash.key(), dbg.offsets), cell.references@, dbg.children, 0)
}

/// The index after the backward walks through the cells of `cells` from the
/// last down to the one at `from`, each with the node of `nodes` in its
/// place.
pub open spec fn collected_down_to(
    index: DbgInfoView,
    cells: Seq<HashedCell>,
    nodes: Seq<DbgNodeView>,
    from: int,
) -> DbgInfoView
    decreases cells, cells.len() - from,
{
    if 0 <= from < cells.len() {
        collected_backwards(
            collected_down_to(index, cells, nodes, from + 1),
            cells[from],
            nodes[from],
        )
    } else {
        index
    }
}

/// Filing under a hash keeps what was filed first: a second binding for the
/// same hash changes nothing, whatever its offsets.
pub proof fn lemma_first_writer_wins(
    index: DbgInfoView,
    key: (u128, u128),
    first: Map<usize, DbgPos>,
    second: Map<usize, DbgPos>,
)
    ensures
        filed(filed(index, key, first), key, second) == filed(index, key, first),
        filed(index, key, first).contains_key(key),
        !index.contains_key(key) ==> filed(filed(index, key, first), key, second)[key] == first,
{
}

/// A walk keeps what was filed before it: a hash that has a binding keeps it,
/// whatever the walk finds under that hash.
pub proof fn lemma_collected_keeps_first(
    index: DbgInfoView,
    cell: HashedCell,
    dbg: DbgNodeView,
    key: (u128, u128),
)
    requires
        index.contains_key(key),
    ensures
        collected(index, cell, dbg).contains_key(key),
        collected(index, cell, dbg)[key] == index[key],
    decreases cell, 0int,
{
    lemma_collected_upto_keeps_first(
        filed(index, cell.hash.key(), dbg.offsets),
        cell.references@,
        dbg.children,
        cell.references@.len() as int,
        key,
    );
}

/// The same for the walks through the first `upto` of a list of cells.
pub proof fn lemma_collected_upto_keeps_first(
    index: DbgInfoView,
    cells: Seq<HashedCell>,
    nodes: Seq<DbgNodeView>,
    upto: int,
    key: (u128, u128),
)
    requires
        index.contains_key(key),
    ensures
        collected_upto(index, cells, nodes, upto).contains_key(key),
        collected_upto(index, cells, nodes, upto)[key] == index[key],
    decreases cells, upto,
{
    if 0 < upto <= cells.len() {
        lemma_collected_upto_keeps_first(index, cells, nodes, upto - 1, key);
        lemma_collected_keeps_first(
            collected_upto(index, cells, nodes, upto - 1),
            cells[upto - 1],
            nodes[upto - 1],
            key,
        );
    }
}

/// A backward walk keeps what was filed before it as well.
pub proof fn lemma_collected_backwards_keeps_first(
    index: DbgInfoView,
    cell: HashedCell,
    dbg: DbgNodeView,
    key: (u128, u128),
)
    requires
        index.contains_key(key),
    ensures
        collected_backwards(index, cell, dbg).contains_key(key),
        collected_backwards(index, cell, dbg)[key] == index[key],
    decreases cell, 0int,
{
    lemma_collected_down_to_keeps_first(
        filed(index, cell.hash.key(), dbg.offsets),
        cell.references@,
        dbg.children,
        0,
        key,
    );
}

/// The same for the backward walks through a list of cells down to the one
/// at `from`.
pub proof fn lemma_collected_down_to_keeps_first(
    index: DbgInfoView,
    cells: Seq<HashedCell>,
    nodes: Seq<DbgNodeView>,
    from: int,
    key: (u128, u128),
)
    requires
        index.contains_key(key),
    ensures
        collected_down_to(index, cells, nodes, from).contains_key(key),
        collected_down_to(index, cells, nodes, from)[key] == index[key],
    decreases cells, cells.len() - from,
{
    if 0 <= from < cells.len() {
        lemma_collected_down_to_keeps_first(index, cells, nodes, from + 1, key);
        lemma_collected_backwards_keeps_first(
            collected_down_to(index, cells, nodes, from + 1),
            cells[from],
            nodes[from],
            key,
        );
    }
}

/// A walk files the cell that it starts from: under its hash stand the
/// offsets of its debug node, unless the hash had a binding before.
pub proof fn lemma_collected_files_root(index: DbgInfoView, cell: HashedCell, dbg: DbgNodeView)
    ensures
        collected(index, cell, dbg).contains_key(cell.hash.key()),
        !index.contains_key(cell.hash.key()) ==> collected(index, cell, dbg)[cell.hash.key()]
            == dbg.offsets,
        collected_backwards(index, cell, dbg).contains_key(cell.hash.key()),
        !index.contains_key(cell.hash.key()) ==> collected_backwards(
            index,
            cell,
            dbg,
        )[cell.hash.key()] == dbg.offsets,
{
    let start = filed(index, cell.hash.key(), dbg.offsets);
    lemma_collected_upto_keeps_first(
        start,
        cell.references@,
        dbg.children,
        cell.references@.len() as int,
        cell.hash.key(),
    );
    lemma_collected_down_to_keeps_first(
        start,
        cell.references@,
        dbg.children,
        0,
        cell.hash.key(),
    );
}

/// What the walks through more cells of a list have filed stays filed.
proof fn lemma_upto_grows(
    index: DbgInfoView,
    cells: Seq<HashedCell>,
    nodes: Seq<DbgNodeView>,
    from: int,
    to: int,
    key: (u128, u128),
)
    requires
        0 <= from <= to <= cells.len(),
        collected_upto(index, cells, nodes, from).contains_key(key),
    ensures
        collected_upto(index, cells, nodes, to).contains_key(key),
    decreases to - from,
{
    if from < to {
        lemma_upto_grows(index, cells, nodes, from, to - 1, key);
        lemma_collected_keeps_first(
            collected_upto(index, cells, nodes, to - 1),
            cells[to - 1],
            nodes[to - 1],
            key,
        );
    }
}

/// What the backward walks through more cells of a list have filed stays
/// filed.
proof fn lemma_down_grows(
    index: DbgInfoView,
    cells: Seq<HashedCell>,
    nodes: Seq<DbgNodeView>,
    from: int,
    to: int,
    key: (u128, u128),
)
    requires
        0 <= to <= from <= cells.len(),
        collected_down_to(index, cells, nodes, from).contains_key(key),
    ensures
        collected_down_to(index, cells, nodes, to).contains_key(key),
    decreases from - to,
{
    if to < from {
        lemma_down_grows(index, cells, nodes, from, to + 1, key);
        lemma_collected_backwards_keeps_first(
            collected_down_to(index, cells, nodes, to + 1),
            cells[to],
            nodes[to],
            key,
        );
    }
}

/// A walk files the hash of every cell that it reaches, forwards or
/// backwards.
pub proof fn lemma_collected_files_all(
    index: DbgInfoView,
    root: HashedCell,
    dbg: DbgNodeView,
    cell: HashedCell,
)
    requires
        root.reaches(cell),
    ensures
        collected(index, root, dbg).contains_key(cell.hash.key()),
        collected_backwards(index, root, dbg).contains_key(cell.hash.key()),
    decreases root,
{
    if root == cell {
        lemma_collected_files_root(index, root, dbg);
    } else {
        let key = cell.hash.key();
        let cells = root.references@;
        let nodes = dbg.children;
        let n = cells.len() as int;
        let start = filed(index, root.hash.key(), dbg.offsets);
        let i = choose|i: int| 0 <= i < cells.len() && (#[trigger] cells[i]).reaches(cell);
        lemma_collected_files_all(collected_upto(start, cells, nodes, i), cells[i], nodes[i], cell);
        assert(collected_upto(start, cells, nodes, i + 1).contains_key(key));
        lemma_upto_grows(start, cells, nodes, i + 1, n, key);
        lemma_collected_files_all(
            collected_down_to(start, cells, nodes, i + 1),
            cells[i],
            nodes[i],
            cell,
        );
        assert(collected_down_to(start, cells, nodes, i).contains_key(key));
        lemma_down_grows(start, cells, nodes, i, 0, key);
    }
}

/// A walk files nothing but the hashes of the cells that it reaches.
pub proof fn lemma_collected_files_only(
    index: DbgInfoView,
    root: HashedCell,
    dbg: DbgNodeView,
    key: (u128, u128),
)
    requires
        collected(index, root, dbg).contains_key(key),
    ensures
        index.contains_key(key) || root.holds(key),
    decreases root, 0int,
{
    let cells = root.references@;
    let start = filed(index, root.hash.key(), dbg.offsets);
    lemma_collected_upto_files_only(start, cells, dbg.children, cells.len() as int, key);
    if start.contains_key(key) {
        if !index.contains_key(key) {
            assert(root.reaches(root) && root.hash.key() == key);
        }
    } else {
        let j = choose|j: int| 0 <= j < cells.len() && (#[trigger] cells[j]).holds(key);
        let cell = choose|cell: HashedCell| #[trigger] cells[j].reaches(cell) && cell.hash.key() == key;
        assert(root.reaches(cell));
    }
}

/// The same for the walks through the first `upto` of a list of cells.
proof fn lemma_collected_upto_files_only(
    index: DbgInfoView,
    cells: Seq<HashedCell>,
    nodes: Seq<DbgNodeView>,
    upto: int,
    key: (u128, u128),
)
    requires
        collected_upto(index, cells, nodes, upto).contains_key(key),
    ensures
        index.contains_key(key) || exists|j: int|
            0 <= j < cells.len() && (#[trigger] cells[j]).holds(key),
    decreases cells, upto,
{
    if 0 < upto <= cells.len() {
        let before = collected_upto(index, cells, nodes, upto - 1);
        lemma_collected_files_only(before, cells[upto - 1], nodes[upto - 1], key);
        if before.contains_key(key) {
            lemma_collected_upto_files_only(index, cells, nodes, upto - 1, key);
        } else {
            assert(cells[upto - 1].holds(key));
        }
    }
}

/// A backward walk files nothing but the hashes of the cells that it
/// reaches.
pub proof fn lemma_collected_backwards_files_only(
    index: DbgInfoView,
    root: HashedCell,
    dbg: DbgNodeView,
    key: (u128, u128),
)
    requires
        collected_backwards(index, root, dbg).contains_key(key),
    ensures
        index.contains_key(key) || root.holds(key),
    decreases root, 0int,
{
    let cells = root.references@;
    let start = filed(index, root.hash.key(), dbg.offsets);
    lemma_collected_down_to_files_only(start, cells, dbg.children, 0, key);
    if start.contains_key(key) {
        if !index.contains_key(key) {
            assert(root.reaches(root) && root.hash.key() == key);
        }
    } else {
        let j = choose|j: int| 0 <= j < cells.len() && (#[trigger] cells[j]).holds(key);
        let cell = choose|cell: HashedCell| #[trigger] cells[j].reaches(cell) && cell.hash.key() == key;
        assert(root.reaches(cell));
    }
}

/// The same for the backward walks through a list of cells down to the one
/// at `from`.
proof fn lemma_collected_down_to_files_only(
    index: DbgInfoView,
    cells: Seq<HashedCell>,
    nodes: Seq<DbgNodeView>,
    from: int,
    key: (u128, u128),
)
    requires
        collected_down_to(index, cells, nodes, from).contains_key(key),
    ensures
        index.contains_key(key) || exists|j: int|
            0 <= j < cells.len() && (#[trigger] cells[j]).holds(key),
    decreases cells, cells.len() - from,
{
    if 0 <= from < cells.len() {
        let before = collected_down_to(index, cells, nodes, from + 1);
        lemma_collected_backwards_files_only(before, cells[from], nodes[from], key);
        if before.contains_key(key) {
            lemma_collected_down_to_files_only(index, cells, nodes, from + 1, key);
        } else {
            assert(cells[from].holds(key));
        }
    }
}

/// The index of a cell holds the hashes of the cells that the cell reaches,
/// each once, and no other: it has as many bindings as the tree has
/// distinct hashes, whichever way it is walked.
pub proof fn lemma_index_domain(root: HashedCell, dbg: DbgNodeView, key: (u128, u128))
    ensures
        collected(Map::<(u128, u128), Map<usize, DbgPos>>::empty(), root, dbg).contains_key(key)
            <==> root.holds(key),
        collected_backwards(
            Map::<(u128, u128), Map<usize, DbgPos>>::empty(),
            root,
            dbg,
        ).contains_key(key) <==> root.holds(key),
{
    let empty = Map::<(u128, u128), Map<usize, DbgPos>>::empty();
    if root.holds(key) {
        let cell = choose|cell: HashedCell| #[trigger] root.reaches(cell) && cell.hash.key() == key;
        lemma_collected_files_all(empty, root, dbg, cell);
    }
    if collected(empty, root, dbg).contains_key(key) {
        lemma_collected_files_only(empty, root, dbg, key);
    }
    if collected_backwards(empty, root, dbg).contains_key(key) {
        lemma_collected_backwards_files_only(empty, root, dbg, key);
    }
}

/// In a list of keys that the map hands out in its order, the first comes
/// before all others.
proof fn lemma_first_key(keys: Seq<(u128, u128)>, j: int)
    requires
        vstd::std_specs::btree::increasing_seq(keys),
        0 <= j < keys.len(),
    ensures
        key_le(keys[0], keys[j]),
{
    broadcast use vstd::std_specs::btree::axiom_increasing_seq_meaning;

    assert(vstd::laws_cmp::obeys_cmp::<(u128, u128)>());
    if j > 0 {
        assert(keys[0].cmp_spec(&keys[j]) is Less);
    }
}

/// `BTreeMap::append` of std, which moves every entry of `other` into
/// `target` and leaves `other` empty. Where both hold a key, std documents
/// that the value of `other` takes the place of the value of `target`.
#[verifier::external_body]
fn append_entries(target: &mut HashIndex, other: &mut HashIndex)
    ensures
        final(target)@ == old(target)@.union_prefer_right(old(other)@),
        forall|k: (u128, u128)| !final(other)@.contains_key(k),
{
    target.append(other)
}

/// The cells and nodes that wait on the work stack of a walk, the next one
/// last.
spec fn waiting(stack: Seq<(&HashedCell, &DbgNode)>) -> Seq<(HashedCell, DbgNodeView)> {
    Seq::new(stack.len(), |i: int| (*stack[i].0, stack[i].1@))
}

/// The first `upto` cells of `cells`, each with the node in its place.
spec fn child_pairs(cells: Seq<HashedCell>, nodes: Seq<DbgNodeView>, upto: int) -> Seq<
    (HashedCell, DbgNodeView),
> {
    Seq::new(upto as nat, |i: int| (cells[i], nodes[i]))
}

/// The index after all that waits on the stack has been walked backwards,
/// from the last entry of the stack down to the first.
spec fn drained(index: DbgInfoView, stack: Seq<(HashedCell, DbgNodeView)>) -> DbgInfoView
    decreases stack.len(),
{
    if stack.len() == 0 {
        index
    } else {
        drained(collected_backwards(index, stack.last().0, stack.last().1), stack.drop_last())
    }
}

/// Number of cells that a walk has still to visit for what waits on the
/// stack.
spec fn weight(stack: Seq<(HashedCell, DbgNodeView)>) -> nat
    decreases stack.len(),
{
    if stack.len() == 0 {
        0
    } else {
        weight(stack.drop_last()) + stack.last().0.size()
    }
}

/// Draining a stack walks what lies on top first.
proof fn lemma_drained_concat(
    index: DbgInfoView,
    a: Seq<(HashedCell, DbgNodeView)>,
    b: Seq<(HashedCell, DbgNodeView)>,
)
    ensures
        drained(index, a + b) == drained(drained(index, b), a),
    decreases b.len(),
{
    if b.len() == 0 {
        assert(a + b =~= a);
    } else {
        assert((a + b).drop_last() =~= a + b.drop_last());
        assert((a + b).last() == b.last());
        lemma_drained_concat(collected_backwards(index, b.last().0, b.last().1), a, b.drop_last());
    }
}

/// The weight of a stack is the sum of the weights of its parts.
proof fn lemma_weight_concat(a: Seq<(HashedCell, DbgNodeView)>, b: Seq<(HashedCell, DbgNodeView)>)
    ensures
        weight(a + b) == weight(a) + weight(b),
    decreases b.len(),
{
    if b.len() == 0 {
        assert(a + b =~= a);
    } else {
        assert((a + b).drop_last() =~= a + b.drop_last());
        assert((a + b).last() == b.last());
        lemma_weight_concat(a, b.drop_last());
    }
}

/// The children of a cell weigh what the cell weighs, less one.
proof fn lemma_weight_children(cells: Seq<HashedCell>, nodes: Seq<DbgNodeView>, upto: int)
    requires
        0 <= upto <= cells.len(),
    ensures
        weight(child_pairs(cells, nodes, upto)) == sizes(cells, upto),
    decreases upto,
{
    if upto > 0 {
        lemma_weight_children(cells, nodes, upto - 1);
        assert(child_pairs(cells, nodes, upto).drop_last() =~= child_pairs(cells, nodes, upto - 1));
    }
}

/// Draining the children of a cell from the stack is the backward walk
/// through its references.
proof fn lemma_drained_children(
    index: DbgInfoView,
    cells: Seq<HashedCell>,
    nodes: Seq<DbgNodeView>,
    from: int,
)
    requires
        0 <= from <= cells.len(),
    ensures
        drained(
            index,
            child_pairs(cells, nodes, cells.len() as int).subrange(from, cells.len() as int),
        ) == collected_down_to(index, cells, nodes, from),
    decreases cells.len() - from,
{
    let n = cells.len() as int;
    let all = child_pairs(cells, nodes, n);
    if from < n {
        let first = seq![all[from]];
        let rest = all.subrange(from + 1, n);
        assert(all.subrange(from, n) =~= first + rest);
        lemma_drained_concat(index, first, rest);
        lemma_drained_children(index, cells, nodes, from + 1);
        assert(first.drop_last() =~= Seq::<(HashedCell, DbgNodeView)>::empty());
        assert(first.last() == all[from]);
        let walked = collected_backwards(drained(index, rest), all[from].0, all[from].1);
        assert(drained(walked, first.drop_last()) == walked);
        assert(drained(drained(index, rest), first) == collected_backwards(
            drained(index, rest),
            all[from].0,
            all[from].1,
        ));
    } else {
        assert(all.subrange(from, n) =~= Seq::<(HashedCell, DbgNodeView)>::empty());
    }
}

impl DbgInfo {
    /// Empty constructor.
    pub fn new() -> (info: Self)
        ensures
            info@ == Map::<(u128, u128), Map<usize, DbgPos>>::empty(),
    {
        let info = Self { map: BTreeMap::new() };
        assert(info@ =~= Map::<(u128, u128), Map<usize, DbgPos>>::empty());
        info
    }

    /// Number of cells registered.
    pub fn len(&self) -> (n: usize)
        ensures
            n == self@.len(),
    {
        assert(self@.dom() =~= self.map@.dom());
        self.map.len()
    }

    /// True if no cells are registered.
    pub fn is_empty(&self) -> (b: bool)
        ensures
            b == (self@.len() == 0),
    {
        assert(self@.dom() =~= self.map@.dom());
        self.map.is_empty()
    }

    /// Inserts some data-offset info for a representation hash **if it is new**.
    pub fn insert(&mut self, key: UInt256, tree: OffsetPos)
        ensures
            final(self)@ == filed(old(self)@, key.key(), tree@),
    {
        let k = (key.hi, key.lo);
        if !self.map.contains_key(&k) {
            self.map.insert(k, tree);
        }
        assert(self@ =~= filed(old(self)@, key.key(), tree@));
    }

    /// Removes a hash/data-offset info binding.
    pub fn remove(&mut self, key: &UInt256) -> (removed: Option<OffsetPos>)
        ensures
            final(self)@ == old(self)@.remove(key.key()),
            removed is Some <==> old(self)@.contains_key(key.key()),
            removed matches Some(tree) ==> tree@ == old(self)@[key.key()],
    {
        let k = (key.hi, key.lo);
        let removed = self.map.remove(&k);
        assert(self@ =~= old(self)@.remove(key.key()));
        removed
    }

    /// Retrieves a hash/data-offset info binding.
    pub fn get(&self, key: &UInt256) -> (found: Option<&OffsetPos>)
        ensures
            found is Some <==> self@.contains_key(key.key()),
            found matches Some(tree) ==> tree@ == self@[key.key()],
    {
        let k = (key.hi, key.lo);
        self.map.get(&k)
    }

    /// Accessor for the first entry in the cell hash map: that of the least
    /// hash.
    pub fn first_entry(&self) -> (first: Option<&OffsetPos>)
        ensures
            first is None <==> self@.len() == 0,
            first matches Some(tree) ==> exists|k: (u128, u128)|
                self@.contains_key(k) && tree@ == self@[k] && least_key(self@, k),
    {
        assert(self@.dom() =~= self.map@.dom());
        let entries = self.map.iter();
        assert(vstd::std_specs::btree::increasing_seq(
            entries.remaining().map_values(|kv: (&(u128, u128), &OffsetPos)| *kv.0),
        ));
        for entry in it: entries
            invariant
                it.seq() == entries.remaining(),
                entries == self.map.iter(),
                self@.dom() == self.map@.dom(),
                it.index() == 0,
                vstd::std_specs::btree::increasing_seq(
                    entries.remaining().map_values(|kv: (&(u128, u128), &OffsetPos)| *kv.0),
                ),
        {
            proof {
                let all = entries.remaining();
                let keys = all.map_values(|kv: (&(u128, u128), &OffsetPos)| *kv.0);
                let k = *entry.0;
                assert(keys[0] == k);
                assert forall|k2: (u128, u128)| self@.contains_key(k2) implies key_le(k, k2) by {
                    assert(all.contains((&k2, &self.map@[k2])));
                    let j = choose|j: int| 0 <= j < all.len() && all[j] == (&k2, &self.map@[k2]);
                    assert(keys[j] == k2);
                    lemma_first_key(keys, j);
                }
                assert(self@.contains_key(k) && entry.1@ == self@[k] && least_key(self@, k));
            }
            return Some(entry.1);
        }
        None
    }

    /// Constructor from a single cell.
    pub fn from(cell: &HashedCell, node: &DbgNode) -> (info: Self)
        requires
            node@.pairs_with(*cell),
        ensures
            info@ == collected(Map::<(u128, u128), Map<usize, DbgPos>>::empty(), *cell, node@),
    {
        let mut info = Self::new();
        info.collect(cell, node);
        info
    }

    /// Constructor from the root that a writer has given, once the hashes of
    /// its cells are known: the index of `hashes` and `node`, where `node`
    /// has the shape of `cell` and `hashes` is of that shape too; else
    /// `None`.
    pub fn from_root(cell: &Cell, hashes: &HashedCell, node: &DbgNode) -> (info: Option<Self>)
        ensures
            info is Some <==> node@.mirrors(cell@) && hashes.shaped_like(cell@),
            info matches Some(index) ==> index@ == collected(
                Map::<(u128, u128), Map<usize, DbgPos>>::empty(),
                *hashes,
                node@,
            ),
    {
        if node.mirrors_cell(cell) && hashes.has_shape_of(cell) {
            proof {
                lemma_mirrors_pairs(node@, cell@, *hashes);
            }
            Some(Self::from(hashes, node))
        } else {
            None
        }
    }

    /// Merges two selves: every binding of `other` is moved into `self`, in
    /// place of what `self` had filed under the same hash, and `other` is
    /// left empty.
    pub fn append(&mut self, other: &mut Self)
        ensures
            final(self)@ == old(self)@.union_prefer_right(old(other)@),
            final(other)@ == Map::<(u128, u128), Map<usize, DbgPos>>::empty(),
    {
        append_entries(&mut self.map, &mut other.map);
        assert(self@ =~= old(self)@.union_prefer_right(old(other)@));
        assert(other@ =~= Map::<(u128, u128), Map<usize, DbgPos>>::empty());
    }

    /// Adds a cell to the cell hash map, given its [`DbgNode`], **recursively**.
    ///
    /// The node must have the shape of the cell.
    pub fn collect(&mut self, cell: &HashedCell, dbg: &DbgNode)
        requires
            dbg@.pairs_with(*cell),
        ensures
            final(self)@ == collected(old(self)@, *cell, dbg@),
        decreases cell,
    {
        // NB: existence of identical cells in a tree is normal.
        self.insert(cell.hash, dbg.offsets.clone());
        let ghost start = self@;
        let n = cell.references.len();
        proof {
            dbg.lemma_view();
        }
        for i in 0..n
            invariant
                n == cell.references@.len(),
                n == dbg.children@.len(),
                dbg@.pairs_with(*cell),
                dbg@.children.len() == n,
                forall|j: int| 0 <= j < n ==> dbg@.children[j] == (#[trigger] dbg.children@[j])@,
                self@ == collected_upto(start, cell.references@, dbg@.children, i as int),
        {
            let child_cell = &cell.references[i];
            let child_dbg = &dbg.children[i];
            assert(dbg@.children[i as int].pairs_with(cell.references@[i as int]));
            self.collect(child_cell, child_dbg);
        }
    }

    /// Adds a cell to the cell hash map, given its [`DbgNode`], with a work
    /// stack in place of recursion. The references of each cell are walked
    /// from the last to the first.
    ///
    /// The node must have the shape of the cell.
    pub fn stackless_collect(&mut self, cell: &HashedCell, dbg: &DbgNode)
        requires
            dbg@.pairs_with(*cell),
        ensures
            final(self)@ == collected_backwards(old(self)@, *cell, dbg@),
    {
        let ghost target = collected_backwards(self@, *cell, dbg@);
        let mut stack: Vec<(&HashedCell, &DbgNode)> = Vec::with_capacity(4);
        stack.push((cell, dbg));
        proof {
            let one = waiting(stack@);
            assert(one.drop_last() =~= Seq::<(HashedCell, DbgNodeView)>::empty());
            assert(one.last() == (*cell, dbg@));
            assert(drained(self@, one) == drained(target, one.drop_last()));
        }
        while !stack.is_empty()
            invariant
                forall|i: int|
                    0 <= i < stack@.len() ==> (#[trigger] stack@[i]).1@.pairs_with(*stack@[i].0),
                drained(self@, waiting(stack@)) == target,
            decreases weight(waiting(stack@)),
        {
            let ghost before = waiting(stack@);
            let ghost index = self@;
            let (cell, dbg) = stack.pop().unwrap();
            let ghost rest = waiting(stack@);
            proof {
                assert(before.drop_last() =~= rest);
                assert(before.last() == (*cell, dbg@));
                dbg.lemma_view();
            }
            // NB: existence of identical cells in a tree is normal.
            self.insert(cell.hash, dbg.offsets.clone());
            let n = cell.references.len();
            for subcell_idx in 0..n
                invariant
                    n == cell.references@.len(),
                    n == dbg.children@.len(),
                    dbg@.pairs_with(*cell),
                    dbg@.children.len() == n,
                    forall|j: int|
                        0 <= j < n ==> dbg@.children[j] == (#[trigger] dbg.children@[j])@,
                    forall|i: int|
                        0 <= i < stack@.len() ==> (#[trigger] stack@[i]).1@.pairs_with(
                            *stack@[i].0,
                        ),
                    waiting(stack@) == rest + child_pairs(
                        cell.references@,
                        dbg@.children,
                        subcell_idx as int,
                    ),
            {
                let subcell = &cell.references[subcell_idx];
                let subdbg = &dbg.children[subcell_idx];
                assert(dbg@.children[subcell_idx as int].pairs_with(
                    cell.references@[subcell_idx as int],
                ));
                let ghost below = waiting(stack@);
                stack.push((subcell, subdbg));
                assert(subdbg@ == dbg@.children[subcell_idx as int]);
                assert(*subcell == cell.references@[subcell_idx as int]);
                assert(waiting(stack@) =~= below.push((*subcell, subdbg@)));
                assert(waiting(stack@) =~= rest + child_pairs(
                    cell.references@,
                    dbg@.children,
                    subcell_idx + 1,
                ));
            }
            proof {
                let children = child_pairs(cell.references@, dbg@.children, n as int);
                assert(children.subrange(0, n as int) =~= children);
                lemma_drained_concat(self@, rest, children);
                lemma_drained_children(self@, cell.references@, dbg@.children, 0);
                lemma_weight_concat(rest, children);
                lemma_weight_children(cell.references@, dbg@.children, n as int);
            }
        }
    }
}

} // verus!
