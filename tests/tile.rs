use netwalk::direction::{directions, DirectionKind};
use netwalk::tile::{RotationDirection, Tile, TileKind};
use netwalk::util::{BitFlag, Flag, Pos, Size};

fn rotated(m: Flag, rd: RotationDirection, n: i32) -> Flag {
    let mut t = Tile::new();
    t.directions = m;
    t.rotate(rd, n);
    t.directions
}

#[test]
fn count_bits_values() {
    assert_eq!(0u8.count_bits(), 0);
    assert_eq!(1u8.count_bits(), 1);
    assert_eq!(10u8.count_bits(), 2);
    assert_eq!(15u8.count_bits(), 4);
    assert_eq!(255u8.count_bits(), 8);
}

#[test]
fn new_tile_is_empty() {
    let t = Tile::new();
    assert_eq!(t.kind, TileKind::UNDEFINED);
    assert_eq!(t.directions, 0);
    assert_eq!(t.neighbours, 0);
    assert!(!t.powered);
    assert_eq!(t.connections(), 0);
    assert_eq!(t.free_directions(), 0);
}

#[test]
fn connections_and_free_directions_count_bits() {
    let mut t = Tile::new();
    t.directions = 11;
    t.neighbours = 6;
    assert_eq!(t.connections(), 3);
    assert_eq!(t.free_directions(), 2);
}

#[test]
fn quarter_turns_follow_the_table() {
    assert_eq!(rotated(1, RotationDirection::Right, 1), 2);
    assert_eq!(rotated(2, RotationDirection::Right, 1), 4);
    assert_eq!(rotated(4, RotationDirection::Right, 1), 8);
    assert_eq!(rotated(8, RotationDirection::Right, 1), 1);
    assert_eq!(rotated(1, RotationDirection::Left, 1), 8);
    assert_eq!(rotated(2, RotationDirection::Left, 1), 1);
    assert_eq!(rotated(5, RotationDirection::Right, 1), 10);
    assert_eq!(rotated(3, RotationDirection::Right, 1), 6);
    assert_eq!(rotated(3, RotationDirection::Left, 1), 9);
}

#[test]
fn several_turns_and_no_turns() {
    assert_eq!(rotated(1, RotationDirection::Right, 2), 4);
    assert_eq!(rotated(7, RotationDirection::Right, 3), 11);
    assert_eq!(rotated(7, RotationDirection::Right, 0), 7);
    assert_eq!(rotated(7, RotationDirection::Left, -2), 7);
}

#[test]
fn rotation_closure_on_every_mask() {
    for m in 0u8..16 {
        assert_eq!(rotated(m, RotationDirection::Right, 4), m);
        assert_eq!(rotated(m, RotationDirection::Left, 4), m);
        let r = rotated(m, RotationDirection::Right, 1);
        assert_eq!(rotated(r, RotationDirection::Left, 1), m);
        assert_eq!(rotated(m, RotationDirection::Right, 1).count_bits(), m.count_bits());
    }
}

#[test]
fn rotation_keeps_other_fields() {
    let mut t = Tile::new();
    t.kind = TileKind::TERMINAL;
    t.directions = 1;
    t.neighbours = 9;
    t.powered = true;
    t.rotate(RotationDirection::Left, 1);
    assert_eq!(t.directions, 8);
    assert_eq!(t.kind, TileKind::TERMINAL);
    assert_eq!(t.neighbours, 9);
    assert!(t.powered);
}

#[test]
fn direction_table_entries() {
    let d = directions();
    assert_eq!(d[0].kind, DirectionKind::UP);
    assert_eq!(d[1].kind, DirectionKind::RIGHT);
    assert_eq!(d[2].kind, DirectionKind::DOWN);
    assert_eq!(d[3].kind, DirectionKind::LEFT);
    for i in 0..4 {
        assert_eq!(d[i].flag, 1u8 << i);
        assert_eq!(d[i].opposite, d[(i + 2) % 4].flag);
        assert_eq!(d[i].right, d[(i + 1) % 4].flag);
        assert_eq!(d[i].left, d[(i + 3) % 4].flag);
        let back = d[(i + 2) % 4].offset;
        assert_eq!(d[i].offset.add(back), Pos::new(0, 0));
    }
    assert_eq!(d[0].offset, Pos::new(0, -1));
    assert_eq!(d[1].offset, Pos::new(1, 0));
    assert_eq!(DirectionKind::default(), DirectionKind::UP);
}

#[test]
fn positions_and_sizes_add() {
    assert_eq!(Pos::new(2, 3).add(Pos::new(-1, 4)), Pos::new(1, 7));
    let s = Size::new(3, 4).add(Size::new(1, 1));
    assert_eq!(s.width, 4);
    assert_eq!(s.height, 5);
    assert_eq!(TileKind::default(), TileKind::UNDEFINED);
}
