use ton_labs_assembler::cell::{BuilderData, Cell, CellError};
use ton_labs_assembler::debug::{DbgNode, DbgPos};
use ton_labs_assembler::errors::OperationError;
use ton_labs_assembler::writer::{CodePage0, Writer};

fn pos(line: usize) -> DbgPos {
    DbgPos { filename: String::from("main.code"), line, line_code: line }
}

fn bits_of(bytes: &[u8]) -> Vec<bool> {
    let mut bits = Vec::new();
    for byte in bytes {
        for i in 0..8 {
            bits.push((byte >> (7 - i)) & 1 == 1);
        }
    }
    bits
}

fn count_cells(cell: &Cell) -> usize {
    let mut n = 1;
    for i in 0..cell.references_count() {
        n += count_cells(cell.reference(i));
    }
    n
}

fn within_capacity(cell: &Cell) -> bool {
    let mut ok = cell.bit_length() <= 1023 && cell.references_count() <= 4;
    for i in 0..cell.references_count() {
        ok = ok && within_capacity(cell.reference(i));
    }
    ok
}

fn same_shape(cell: &Cell, dbg: &DbgNode) -> bool {
    if cell.references_count() != dbg.children.len() {
        return false;
    }
    for i in 0..cell.references_count() {
        if !same_shape(cell.reference(i), &dbg.children[i]) {
            return false;
        }
    }
    true
}

fn leaf_builder(byte: u8) -> BuilderData {
    let mut builder = BuilderData::new();
    builder.append_raw(&[byte], 8).unwrap();
    builder
}

#[test]
fn nine_commands_stay_in_one_segment() {
    let mut writer = CodePage0::new();
    for line in 0..9 {
        writer.write_command(&[0xA0], DbgNode::from(pos(line))).unwrap();
    }
    let (root, dbg) = writer.finalize();
    assert_eq!(root.bits_used(), 72);
    assert_eq!(root.references_used(), 0);
    assert_eq!(dbg.children.len(), 0);
    assert_eq!(dbg.offsets.len(), 9);
    for line in 0..9 {
        assert_eq!(dbg.offsets.get(&(8 * line)), Some(&pos(line)));
    }
}

#[test]
fn the_128th_command_opens_a_second_segment() {
    let mut writer = CodePage0::new();
    for line in 0..127 {
        writer.write_command(&[0xA0], DbgNode::from(pos(line))).unwrap();
    }
    let (root, dbg) = writer.finalize();
    assert_eq!(root.bits_used(), 1016);
    assert_eq!(root.references_used(), 0);
    assert_eq!(dbg.offsets.len(), 127);

    let mut writer = CodePage0::new();
    for line in 0..128 {
        writer.write_command(&[0xA0], DbgNode::from(pos(line))).unwrap();
    }
    let (root, dbg) = writer.finalize();
    assert_eq!(root.bits_used(), 1016);
    assert_eq!(root.references_used(), 1);
    assert_eq!(root.reference(0).bit_length(), 8);
    assert_eq!(root.reference(0).references_count(), 0);
    assert_eq!(dbg.offsets.len(), 127);
    assert_eq!(dbg.children.len(), 1);
    assert_eq!(dbg.children[0].offsets.len(), 1);
    assert_eq!(dbg.children[0].offsets.get(&0), Some(&pos(127)));
    let cell = root.into_cell();
    assert_eq!(count_cells(&cell), 2);
}

#[test]
fn command_bits_keep_their_order() {
    let mut writer = CodePage0::new();
    writer.write_command(&[0xA5, 0x0F], DbgNode::from(pos(1))).unwrap();
    writer.write_command_bitstring(&[0xC0], 3, DbgNode::from(pos(2))).unwrap();
    let (root, dbg) = writer.finalize();
    let mut expected = bits_of(&[0xA5, 0x0F]);
    expected.extend_from_slice(&[true, true, false]);
    assert_eq!(root.data(), &expected);
    assert_eq!(dbg.offsets.get(&0), Some(&pos(1)));
    assert_eq!(dbg.offsets.get(&16), Some(&pos(2)));
}

#[test]
fn a_command_that_fits_no_cell_is_refused() {
    let mut writer = CodePage0::new();
    writer.write_command(&[0x01], DbgNode::from(pos(1))).unwrap();
    let long = [0u8; 128];
    assert_eq!(writer.write_command(&long, DbgNode::new()), Err(OperationError::NotFitInSlice));
    assert_eq!(
        writer.write_command_bitstring(&long, 1024, DbgNode::new()),
        Err(OperationError::NotFitInSlice)
    );
    assert_eq!(
        writer.write_command_bitstring(&[0xFF], 9, DbgNode::new()),
        Err(OperationError::NotFitInSlice)
    );
    assert_eq!(
        writer.write_composite_command(&long, leaf_builder(1), pos(2), DbgNode::new()),
        Err(OperationError::NotFitInSlice)
    );
    assert_eq!(writer.write_command_bitstring(&long, 1023, DbgNode::new()), Ok(()));
    let (root, dbg) = writer.finalize();
    assert_eq!(root.bits_used(), 8);
    assert_eq!(root.references_used(), 1);
    assert_eq!(root.reference(0).bit_length(), 1023);
    assert_eq!(dbg.children.len(), 1);
}

#[test]
fn a_composite_command_binds_its_position_and_child() {
    let mut writer = CodePage0::new();
    writer.write_command(&[0x11], DbgNode::from(pos(1))).unwrap();
    writer
        .write_composite_command(&[0x8E, 0x80], leaf_builder(0x22), pos(2), DbgNode::from(pos(3)))
        .unwrap();
    let (root, dbg) = writer.finalize();
    assert_eq!(root.bits_used(), 24);
    assert_eq!(root.references_used(), 1);
    assert_eq!(root.reference(0).data(), &bits_of(&[0x22]));
    assert_eq!(dbg.offsets.get(&0), Some(&pos(1)));
    assert_eq!(dbg.offsets.get(&8), Some(&pos(2)));
    assert_eq!(dbg.children.len(), 1);
    assert_eq!(dbg.children[0].offsets.get(&0), Some(&pos(3)));
}

#[test]
fn segments_that_fit_together_are_inlined() {
    let mut writer = CodePage0::new();
    for line in 0..4 {
        writer
            .write_composite_command(&[line as u8], leaf_builder(0x40), pos(line), DbgNode::new())
            .unwrap();
    }
    let (root, dbg) = writer.finalize();
    assert_eq!(root.bits_used(), 32);
    assert_eq!(root.references_used(), 4);
    assert_eq!(root.data(), &bits_of(&[0, 1, 2, 3]));
    for i in 0..4 {
        assert_eq!(root.reference(i).data(), &bits_of(&[0x40]));
    }
    assert_eq!(dbg.children.len(), 4);
    for line in 0..4 {
        assert_eq!(dbg.offsets.get(&(8 * line)), Some(&pos(line)));
    }
    let cell = root.into_cell();
    assert_eq!(count_cells(&cell), 5);
}

#[test]
fn segments_with_too_many_references_are_linked() {
    let mut writer = CodePage0::new();
    for line in 0..5 {
        writer
            .write_composite_command(&[line as u8], leaf_builder(0x40), pos(line), DbgNode::new())
            .unwrap();
    }
    let (root, dbg) = writer.finalize();
    assert_eq!(root.bits_used(), 24);
    assert_eq!(root.references_used(), 4);
    assert_eq!(root.reference(3).bit_length(), 16);
    assert_eq!(root.reference(3).references_count(), 2);
    assert_eq!(dbg.children.len(), 4);
    assert_eq!(dbg.children[3].children.len(), 2);
    assert_eq!(dbg.children[3].offsets.get(&0), Some(&pos(3)));
    assert_eq!(dbg.children[3].offsets.get(&8), Some(&pos(4)));
    let cell = root.into_cell();
    assert_eq!(count_cells(&cell), 7);
}

#[test]
fn every_cell_keeps_within_capacity_and_the_shape_of_its_debug_node() {
    let mut writer = CodePage0::new();
    for round in 0..40 {
        let bytes = [round as u8; 100];
        writer.write_command(&bytes[..(round % 7) * 13 + 1], DbgNode::from(pos(round))).unwrap();
        if round % 3 == 0 {
            let mut inner = CodePage0::new();
            inner.write_command(&[1, 2, 3], DbgNode::from(pos(1000 + round))).unwrap();
            if round % 2 == 0 {
                inner
                    .write_composite_command(&[9], leaf_builder(7), pos(round), DbgNode::new())
                    .unwrap();
            }
            let (block, block_dbg) = inner.finalize();
            writer.write_composite_command(&[0x8E], block, pos(round), block_dbg).unwrap();
        }
    }
    let (root, dbg) = writer.finalize();
    let cell = root.into_cell();
    assert!(within_capacity(&cell));
    assert!(same_shape(&cell, &dbg));
    assert!(count_cells(&cell) > 1);
}

#[test]
fn a_composite_command_leaves_a_reference_free_for_linking() {
    for commands in 1..12 {
        let mut writer = CodePage0::new();
        for line in 0..commands {
            writer
                .write_composite_command(&[0x8E], leaf_builder(1), pos(line), DbgNode::new())
                .unwrap();
        }
        let long = [0u8; 127];
        writer.write_command(&long, DbgNode::from(pos(99))).unwrap();
        writer.write_command(&long, DbgNode::from(pos(100))).unwrap();
        let (root, dbg) = writer.finalize();
        let cell = root.into_cell();
        assert!(within_capacity(&cell));
        assert!(same_shape(&cell, &dbg));
    }
}

#[test]
fn builder_takes_bits_up_to_its_capacity() {
    let mut builder = BuilderData::new();
    assert_eq!(BuilderData::bits_capacity(), 1023);
    assert_eq!(BuilderData::references_capacity(), 4);
    assert_eq!(builder.append_raw(&[0b1011_0000], 4), Ok(()));
    assert_eq!(builder.data(), &vec![true, false, true, true]);
    assert_eq!(builder.bits_used(), 4);
    assert_eq!(builder.bits_free(), 1019);
    assert_eq!(builder.append_raw(&[0xFF], 9), Err(CellError::NotEnoughData));
    assert_eq!(builder.append_raw(&[0u8; 128], 1020), Err(CellError::CellOverflow));
    assert_eq!(builder.append_raw(&[0u8; 128], 1019), Ok(()));
    assert_eq!(builder.bits_free(), 0);
    assert_eq!(builder.append_raw(&[], 0), Ok(()));
}

#[test]
fn builder_takes_four_references() {
    let mut builder = BuilderData::new();
    for i in 0..4 {
        assert_eq!(builder.references_free(), 4 - i);
        assert_eq!(builder.checked_append_reference(leaf_builder(i as u8).into_cell()), Ok(()));
    }
    assert_eq!(
        builder.checked_append_reference(leaf_builder(9).into_cell()),
        Err(CellError::CellOverflow)
    );
    assert_eq!(builder.references_used(), 4);
    assert_eq!(builder.reference(2).data(), &bits_of(&[2]));
}

#[test]
fn builder_joins_another_where_both_fit() {
    let mut first = leaf_builder(0xAA);
    first.append_reference_cell(leaf_builder(1).into_cell());
    let mut second = leaf_builder(0x55);
    second.append_reference_cell(leaf_builder(2).into_cell());
    assert!(first.can_append(&second));
    assert!(first.checked_append_references_and_data(second).is_ok());
    assert_eq!(first.data(), &bits_of(&[0xAA, 0x55]));
    assert_eq!(first.references_used(), 2);
    assert_eq!(first.reference(1).data(), &bits_of(&[2]));

    let mut full = BuilderData::new();
    full.append_raw(&[0u8; 128], 1020).unwrap();
    let other = leaf_builder(3);
    assert!(!full.can_append(&other));
    let back = full.checked_append_references_and_data(other).unwrap_err();
    assert_eq!(back.data(), &bits_of(&[3]));
    assert_eq!(full.bits_used(), 1020);
}

#[test]
fn node_shape_is_checked_against_cells() {
    let mut builder = leaf_builder(1);
    builder.append_reference_cell(leaf_builder(2).into_cell());
    let mut dbg = DbgNode::from(pos(1));
    assert!(!dbg.mirrors_builder(&builder));
    dbg.append_node(DbgNode::new());
    assert!(dbg.mirrors_builder(&builder));
    let cell = builder.clone().into_cell();
    assert!(dbg.mirrors_cell(&cell));
    assert_eq!(cell.clone(), cell);
    dbg.children[0].append_node(DbgNode::new());
    assert!(!dbg.mirrors_cell(&cell));
    assert!(!dbg.mirrors_builder(&builder));
}

#[test]
fn plain_commands_come_down_to_a_chain() {
    let mut writer = CodePage0::new();
    for line in 0..40 {
        let bytes = [line as u8; 100];
        writer.write_command(&bytes, DbgNode::from(pos(line))).unwrap();
    }
    let (root, dbg) = writer.finalize();
    let cell = root.into_cell();
    let mut at = &cell;
    let mut node = &dbg;
    let mut cells = 1;
    while at.references_count() > 0 {
        assert_eq!(at.references_count(), 1);
        assert_eq!(node.children.len(), 1);
        assert_eq!(at.bit_length(), 800);
        at = at.reference(0);
        node = &node.children[0];
        cells += 1;
    }
    assert_eq!(cells, 40);
    assert_eq!(count_cells(&cell), 40);
}
