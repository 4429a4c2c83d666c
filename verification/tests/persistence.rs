use maze_engine::{Cell, DecodeError, Grid};

fn le64(v: u64) -> Vec<u8> {
    v.to_le_bytes().to_vec()
}

fn le32(v: u32) -> Vec<u8> {
    v.to_le_bytes().to_vec()
}

#[test]
fn encode_layout_of_single_cell_grid() {
    let g = Grid {
        width: 1,
        height: 1,
        grid: vec![Cell::Path],
    };
    let bytes = g.encode();
    let mut expected = Vec::new();
    expected.extend(le64(1));
    expected.extend(le64(1));
    expected.extend(le64(1));
    expected.extend(le32(1));
    assert_eq!(bytes, expected);
}

#[test]
fn encode_uses_distinct_cell_tags() {
    let g = Grid {
        width: 3,
        height: 1,
        grid: vec![Cell::Wall, Cell::Path, Cell::Solution],
    };
    let bytes = g.encode();
    assert_eq!(&bytes[24..28], &le32(0)[..]);
    assert_eq!(&bytes[28..32], &le32(1)[..]);
    assert_eq!(&bytes[32..36], &le32(2)[..]);
}

#[test]
fn roundtrip_of_all_wall_grid() {
    // A 5 by 5 grid that was never generated reloads as exactly 25 walls.
    let g = Grid::new(5, 5);
    let bytes = g.encode();
    let back = Grid::decode(&bytes).unwrap();
    assert_eq!(back.width, 5);
    assert_eq!(back.height, 5);
    assert_eq!(back.grid.len(), 25);
    for c in &back.grid {
        assert_eq!(*c, Cell::Wall);
    }
}

#[test]
fn roundtrip_of_generated_grid() {
    let mut g = Grid::new(11, 9);
    g.generate_maze(21);
    let bytes = g.encode();
    let back = Grid::decode(&bytes).unwrap();
    assert_eq!(back.width, g.width);
    assert_eq!(back.height, g.height);
    assert_eq!(back.grid, g.grid);
}

#[test]
fn roundtrip_of_solved_grid() {
    // The solution overlay survives a save and a load intact.
    let mut g = Grid::new(11, 9);
    g.generate_maze(21);
    g.solve_maze();
    let bytes = g.encode();
    let back = Grid::decode(&bytes).unwrap();
    assert_eq!(back.width, g.width);
    assert_eq!(back.height, g.height);
    assert_eq!(back.grid, g.grid);
}

#[test]
fn decode_rejects_short_header() {
    let bytes = vec![0u8; 10];
    assert_eq!(Grid::decode(&bytes), Err(DecodeError::Truncated));
}

#[test]
fn decode_rejects_truncated_cells() {
    // The declared width * height exceeds the bytes that follow.
    let mut g = Grid::new(5, 5);
    g.generate_maze(3);
    let mut bytes = g.encode();
    bytes.truncate(bytes.len() - 6);
    assert_eq!(Grid::decode(&bytes), Err(DecodeError::Truncated));
}

#[test]
fn decode_rejects_unknown_cell_tag() {
    let g = Grid::new(5, 5);
    let mut bytes = g.encode();
    bytes[24] = 7;
    assert_eq!(Grid::decode(&bytes), Err(DecodeError::BadCellTag));
}

#[test]
fn decode_rejects_mismatched_cell_count() {
    let g = Grid::new(5, 5);
    let mut bytes = g.encode();
    // Overwrite the count field with one fewer than width * height.
    bytes[16..24].copy_from_slice(&le64(24));
    assert_eq!(Grid::decode(&bytes), Err(DecodeError::LengthMismatch));
}

#[test]
fn decode_rejects_even_dimensions() {
    // Every grid the engine stores has odd dimensions; an even one in the
    // header is corruption, not a grid to hand out.
    let mut bytes = Vec::new();
    bytes.extend(le64(2));
    bytes.extend(le64(1));
    bytes.extend(le64(2));
    bytes.extend(le32(0));
    bytes.extend(le32(0));
    assert_eq!(Grid::decode(&bytes), Err(DecodeError::EvenDimension));
}

#[test]
fn decode_rejects_oversized_dimensions() {
    let mut bytes = Vec::new();
    bytes.extend(le64(1u64 << 33));
    bytes.extend(le64(1u64 << 33));
    bytes.extend(le64(0));
    assert_eq!(Grid::decode(&bytes), Err(DecodeError::TooLarge));
}

#[test]
fn decode_ignores_trailing_bytes() {
    // A stream decoder stops after the declared cells.
    let g = Grid::new(5, 5);
    let mut bytes = g.encode();
    bytes.push(0xab);
    let back = Grid::decode(&bytes).unwrap();
    assert_eq!(back.grid, g.grid);
}
