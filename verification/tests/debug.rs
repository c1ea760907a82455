use std::collections::BTreeMap;
use ton_labs_assembler::cell::BuilderData;
use ton_labs_assembler::debug::{
    lines_to_string, DbgInfo, DbgNode, DbgPos, HashedCell, Line, OffsetPos,
};
use ton_labs_assembler::hash::UInt256;

fn pos(line: usize) -> DbgPos {
    DbgPos { filename: String::from("lib.code"), line, line_code: line + 100 }
}

fn offsets(entries: &[(usize, usize)]) -> OffsetPos {
    let mut map = BTreeMap::new();
    for (offset, line) in entries {
        map.insert(*offset, pos(*line));
    }
    map
}

fn hash(n: u128) -> UInt256 {
    UInt256 { hi: 0, lo: n }
}

fn leaf(n: u128) -> HashedCell {
    HashedCell { hash: hash(n), references: vec![] }
}

fn node(line: usize, children: Vec<DbgNode>) -> DbgNode {
    DbgNode { offsets: offsets(&[(0, line)]), children }
}

#[test]
fn line_constructors() {
    let line = Line::new("PUSHINT 1\n", "a.code", 7);
    assert_eq!(line.text, "PUSHINT 1\n");
    assert_eq!(line.pos, DbgPos { filename: String::from("a.code"), line: 7, line_code: 7 });
    let line = Line::new_extended("NOP", "b.code", 3, 12);
    assert_eq!(line.pos, DbgPos { filename: String::from("b.code"), line: 3, line_code: 12 });
    assert_eq!(line.clone(), line);
}

#[test]
fn lines_are_joined_in_order() {
    let lines = vec![Line::new("a\n", "f", 1), Line::new("", "f", 2), Line::new("bc", "f", 3)];
    assert_eq!(lines_to_string(&lines), "a\nbc");
    assert_eq!(lines_to_string(&vec![]), "");
}

#[test]
fn position_text() {
    assert_eq!(pos(12).to_string(), "lib.code:12");
    assert_eq!(DbgPos::default().to_string(), "<none>:0");
    assert_eq!(DbgPos::default(), DbgPos { filename: String::new(), line: 0, line_code: 0 });
    let far = DbgPos { filename: String::from("x"), line: 1234567890, line_code: 0 };
    assert_eq!(far.to_string(), "x:1234567890");
}

#[test]
fn node_from_a_position_binds_offset_zero() {
    let node = DbgNode::from(pos(4));
    assert_eq!(node.offsets, offsets(&[(0, 4)]));
    assert!(node.children.is_empty());
    let empty = DbgNode::new();
    assert!(empty.offsets.is_empty());
    assert!(empty.children.is_empty());
}

#[test]
fn append_overwrites_a_binding() {
    let mut node = DbgNode::new();
    node.append(8, pos(1));
    node.append(16, pos(2));
    node.append(8, pos(3));
    assert_eq!(node.offsets, offsets(&[(8, 3), (16, 2)]));
}

#[test]
fn inline_node_moves_offsets_and_takes_children() {
    let mut node = DbgNode::from(pos(1));
    node.append(24, pos(2));
    node.append_node(DbgNode::from(pos(10)));
    let mut other = DbgNode::from(pos(3));
    other.append(8, pos(4));
    other.append_node(DbgNode::from(pos(11)));
    other.append_node(DbgNode::from(pos(12)));
    node.inline_node(16, other);
    assert_eq!(node.offsets, offsets(&[(0, 1), (16, 3), (24, 4)]));
    assert_eq!(node.children.len(), 3);
    assert_eq!(node.children[0].offsets, offsets(&[(0, 10)]));
    assert_eq!(node.children[1].offsets, offsets(&[(0, 11)]));
    assert_eq!(node.children[2].offsets, offsets(&[(0, 12)]));
}

#[test]
fn node_text_lists_offsets_in_rising_order() {
    let mut node = DbgNode::new();
    node.append(16, pos(2));
    node.append(0, pos(1));
    node.append_node(DbgNode::new());
    assert_eq!(node.to_string(), "0:lib.code:1\n16:lib.code:2\n1 children");
    assert_eq!(DbgNode::new().to_string(), "0 children");
    let copy = node.clone();
    assert_eq!(copy.offsets, node.offsets);
    assert_eq!(copy.children.len(), 1);
}

#[test]
fn first_writer_wins() {
    let mut info = DbgInfo::new();
    assert!(info.is_empty());
    info.insert(hash(5), offsets(&[(0, 1)]));
    info.insert(hash(5), offsets(&[(0, 2), (8, 3)]));
    assert_eq!(info.len(), 1);
    assert_eq!(info.get(&hash(5)), Some(&offsets(&[(0, 1)])));
    assert_eq!(info.get(&hash(6)), None);
    assert_eq!(info.remove(&hash(5)), Some(offsets(&[(0, 1)])));
    assert_eq!(info.remove(&hash(5)), None);
    assert!(info.is_empty());
}

#[test]
fn first_entry_is_that_of_the_least_hash() {
    let mut info = DbgInfo::new();
    assert_eq!(info.first_entry(), None);
    info.insert(UInt256 { hi: 1, lo: 0 }, offsets(&[(0, 1)]));
    info.insert(UInt256 { hi: 0, lo: 9 }, offsets(&[(0, 2)]));
    info.insert(UInt256 { hi: 0, lo: u128::MAX }, offsets(&[(0, 3)]));
    assert_eq!(info.first_entry(), Some(&offsets(&[(0, 2)])));
    assert_eq!(info.len(), 3);
}

#[test]
fn append_prefers_the_bindings_that_come_in() {
    let mut info = DbgInfo::new();
    info.insert(hash(1), offsets(&[(0, 1)]));
    info.insert(hash(2), offsets(&[(0, 2)]));
    let mut other = DbgInfo::new();
    other.insert(hash(2), offsets(&[(0, 20)]));
    other.insert(hash(3), offsets(&[(0, 30)]));
    info.append(&mut other);
    assert!(other.is_empty());
    assert_eq!(info.len(), 3);
    assert_eq!(info.get(&hash(1)), Some(&offsets(&[(0, 1)])));
    assert_eq!(info.get(&hash(2)), Some(&offsets(&[(0, 20)])));
    assert_eq!(info.get(&hash(3)), Some(&offsets(&[(0, 30)])));
}

#[test]
fn collect_walks_the_references_in_order() {
    let cell = HashedCell {
        hash: hash(1),
        references: vec![
            HashedCell { hash: hash(2), references: vec![leaf(7)] },
            leaf(7),
            leaf(1),
        ],
    };
    let dbg = node(10, vec![node(20, vec![node(71, vec![])]), node(72, vec![]), node(11, vec![])]);
    let info = DbgInfo::from(&cell, &dbg);
    assert_eq!(info.len(), 3);
    assert_eq!(info.get(&hash(1)), Some(&offsets(&[(0, 10)])));
    assert_eq!(info.get(&hash(2)), Some(&offsets(&[(0, 20)])));
    assert_eq!(info.get(&hash(7)), Some(&offsets(&[(0, 71)])));

    let mut again = DbgInfo::new();
    again.insert(hash(2), offsets(&[(8, 8)]));
    again.collect(&cell, &dbg);
    assert_eq!(again.get(&hash(2)), Some(&offsets(&[(8, 8)])));
    assert_eq!(again.get(&hash(7)), Some(&offsets(&[(0, 71)])));
}

#[test]
fn stackless_collect_walks_the_references_backwards() {
    let cell = HashedCell {
        hash: hash(1),
        references: vec![
            HashedCell { hash: hash(2), references: vec![leaf(7)] },
            leaf(7),
            leaf(1),
        ],
    };
    let dbg = node(10, vec![node(20, vec![node(71, vec![])]), node(72, vec![]), node(11, vec![])]);
    let mut info = DbgInfo::new();
    info.stackless_collect(&cell, &dbg);
    assert_eq!(info.len(), 3);
    assert_eq!(info.get(&hash(1)), Some(&offsets(&[(0, 10)])));
    assert_eq!(info.get(&hash(2)), Some(&offsets(&[(0, 20)])));
    assert_eq!(info.get(&hash(7)), Some(&offsets(&[(0, 72)])));
}

#[test]
fn collect_of_a_deep_chain() {
    let mut cell = leaf(0);
    let mut dbg = node(0, vec![]);
    for n in 1..200 {
        cell = HashedCell { hash: hash(n), references: vec![cell] };
        dbg = node(n as usize, vec![dbg]);
    }
    let mut info = DbgInfo::new();
    info.stackless_collect(&cell, &dbg);
    assert_eq!(info.len(), 200);
    assert_eq!(info.first_entry(), Some(&offsets(&[(0, 0)])));
    assert_eq!(DbgInfo::from(&cell, &dbg).len(), 200);
}

#[test]
fn hash_text_has_64_lower_case_digits() {
    let hash = UInt256 { hi: 0x0123_4567_89ab_cdef_0011_2233_4455_6677, lo: 0xff };
    assert_eq!(
        hash.to_hex_string(),
        "0123456789abcdef0011223344556677000000000000000000000000000000ff"
    );
    assert_eq!(hash.to_hex_string().len(), 64);
    assert_eq!(UInt256 { hi: 0, lo: 0 }.to_hex_string(), "0".repeat(64));
}

#[test]
fn node_shape_is_checked_against_hashed_cells() {
    let cell = HashedCell { hash: hash(1), references: vec![leaf(2), leaf(3)] };
    assert!(node(1, vec![node(2, vec![]), node(3, vec![])]).pairs_with(&cell));
    assert!(!node(1, vec![node(2, vec![])]).pairs_with(&cell));
    assert!(!node(1, vec![node(2, vec![]), node(3, vec![node(4, vec![])])]).pairs_with(&cell));
    assert!(node(9, vec![]).pairs_with(&leaf(9)));
}

#[test]
fn node_offsets_are_checked_against_a_limit() {
    let mut node = DbgNode::new();
    assert!(node.offsets_within(0));
    node.append(0, pos(1));
    node.append(1023, pos(2));
    assert!(node.offsets_within(1023));
    assert!(!node.offsets_within(1022));
    assert!(node.offsets_within(usize::MAX));
}

#[test]
fn hash_is_read_back_from_its_text() {
    let hash = UInt256 { hi: 0x0123_4567_89ab_cdef_0011_2233_4455_6677, lo: u128::MAX - 5 };
    assert_eq!(UInt256::from_hex_string(&hash.to_hex_string()), Some(hash));
    assert_eq!(UInt256::from_hex_string(&"0".repeat(64)), Some(UInt256 { hi: 0, lo: 0 }));
    assert_eq!(UInt256::from_hex_string(&"f".repeat(64)), Some(UInt256 { hi: u128::MAX, lo: u128::MAX }));
    assert_eq!(UInt256::from_hex_string(&"0".repeat(63)), None);
    assert_eq!(UInt256::from_hex_string(&"0".repeat(65)), None);
    assert_eq!(UInt256::from_hex_string(&"F".repeat(64)), None);
    assert_eq!(UInt256::from_hex_string(&("0".repeat(63) + "g")), None);
    assert_eq!(UInt256::from_hex_string(&("x".to_string() + &"0".repeat(63))), None);
    assert_eq!(UInt256::from_hex_string(""), None);
}

#[test]
fn index_of_a_root_needs_matching_shapes() {
    let mut child = BuilderData::new();
    child.append_raw(&[7], 8).unwrap();
    let mut root = BuilderData::new();
    root.append_raw(&[1, 2], 16).unwrap();
    root.append_reference_cell(child.into_cell());
    let root = root.into_cell();
    let hashes = HashedCell { hash: hash(1), references: vec![leaf(2)] };
    let dbg = node(10, vec![node(20, vec![])]);
    assert!(hashes.has_shape_of(&root));
    assert!(!leaf(1).has_shape_of(&root));
    let info = DbgInfo::from_root(&root, &hashes, &dbg).unwrap();
    assert_eq!(info.len(), 2);
    assert_eq!(info.get(&hash(1)), Some(&offsets(&[(0, 10)])));
    assert_eq!(info.get(&hash(2)), Some(&offsets(&[(0, 20)])));
    assert!(DbgInfo::from_root(&root, &leaf(1), &dbg).is_none());
    assert!(DbgInfo::from_root(&root, &hashes, &node(10, vec![])).is_none());
}

#[test]
fn index_holds_each_hash_of_the_tree_once() {
    let cell = HashedCell {
        hash: hash(1),
        references: vec![
            HashedCell { hash: hash(2), references: vec![leaf(3), leaf(1)] },
            leaf(3),
            HashedCell { hash: hash(4), references: vec![leaf(2)] },
        ],
    };
    let dbg = node(
        1,
        vec![node(2, vec![node(3, vec![]), node(4, vec![])]), node(5, vec![]), node(6, vec![node(7, vec![])])],
    );
    let forward = DbgInfo::from(&cell, &dbg);
    let mut backward = DbgInfo::new();
    backward.stackless_collect(&cell, &dbg);
    assert_eq!(forward.len(), 4);
    assert_eq!(backward.len(), 4);
    for n in 1..5 {
        assert!(forward.get(&hash(n)).is_some());
        assert!(backward.get(&hash(n)).is_some());
    }
    assert_eq!(forward.get(&hash(3)), Some(&offsets(&[(0, 3)])));
    assert_eq!(backward.get(&hash(3)), Some(&offsets(&[(0, 5)])));
}

#[test]
fn hashes_are_in_the_order_of_their_texts() {
    let hashes = [
        UInt256 { hi: 0, lo: 0 },
        UInt256 { hi: 0, lo: 9 },
        UInt256 { hi: 0, lo: 10 },
        UInt256 { hi: 0, lo: u128::MAX },
        UInt256 { hi: 1, lo: 0 },
        UInt256 { hi: 0x0fff_ffff_ffff_ffff_ffff_ffff_ffff_ffff, lo: 5 },
        UInt256 { hi: 0x1000_0000_0000_0000_0000_0000_0000_0000, lo: 0 },
        UInt256 { hi: u128::MAX, lo: u128::MAX },
    ];
    for a in hashes {
        for b in hashes {
            let by_key = (a.hi, a.lo) <= (b.hi, b.lo);
            let by_text = a.to_hex_string() <= b.to_hex_string();
            assert_eq!(by_key, by_text);
        }
    }
}
