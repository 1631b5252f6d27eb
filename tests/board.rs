use netwalk::board::Board;
use netwalk::game::Game;
use netwalk::rng::{GameRng, GameSeed};
use netwalk::tile::{RotationDirection, Tile, TileKind};
use netwalk::util::{BitFlag, Pos};

fn seed_of(b: u8) -> GameSeed {
    GameSeed::from_slice(&[b; 32])
}

fn board(w: i32, h: i32, b: u8) -> Board {
    let mut rng = GameRng::from(seed_of(b));
    Board::new(w, h, &mut rng)
}

fn edges(b: &Board) -> u32 {
    b.get_directions().iter().map(|m| m.count_bits() as u32).sum::<u32>() / 2
}

#[test]
fn generated_boards_are_solved() {
    for s in 0u8..12 {
        for (w, h) in [(1, 1), (2, 1), (1, 5), (3, 3), (4, 6), (7, 7)] {
            let mut b = board(w, h, s);
            assert_eq!(b.get_directions().len(), (w * h) as usize);
            assert_eq!(edges(&b), (w * h - 1) as u32);
            assert!(b.get_neighbours().iter().all(|m| *m == 0));
            assert!(b.is_solved());
            for y in 0..h {
                for x in 0..w {
                    assert!(b.get_tile(&Pos::new(x, y)).powered);
                }
            }
        }
    }
}

#[test]
fn generated_stubs_face_each_other() {
    let offsets = [(0, -1, 4u8), (1, 0, 8u8), (0, 1, 1u8), (-1, 0, 2u8)];
    for s in 0u8..10 {
        let b = board(6, 4, s);
        for y in 0..4 {
            for x in 0..6 {
                let m = b.get_tile(&Pos::new(x, y)).directions;
                for (k, (dx, dy, back)) in offsets.iter().enumerate() {
                    if m & (1u8 << k) != 0 {
                        let q = Pos::new(x + dx, y + dy);
                        assert!(q.x >= 0 && q.y >= 0 && q.x < 6 && q.y < 4);
                        assert!(b.get_tile(&q).directions & back != 0);
                    }
                }
            }
        }
    }
}

#[test]
fn generation_kinds() {
    for s in 0u8..8 {
        let b = board(5, 4, s);
        let root = b.get_root();
        let mut servers = 0;
        for y in 0..4 {
            for x in 0..5 {
                let t = b.get_tile(&Pos::new(x, y));
                assert!(!t.powered);
                if t.kind == TileKind::SERVER {
                    servers += 1;
                    assert_eq!(Pos::new(x, y), root);
                } else if t.connections() == 1 {
                    assert_eq!(t.kind, TileKind::TERMINAL);
                } else {
                    assert_eq!(t.kind, TileKind::CONNECTOR);
                }
            }
        }
        assert_eq!(servers, 1);
    }
}

#[test]
fn generation_is_deterministic() {
    for s in [0u8, 7, 200] {
        let a = board(6, 5, s);
        let b = board(6, 5, s);
        assert_eq!(a.get_directions(), b.get_directions());
        assert_eq!(a.get_neighbours(), b.get_neighbours());
        assert_eq!(a.get_root(), b.get_root());
        assert_eq!(a.get_size(), b.get_size());
    }
}

#[test]
fn rotate_tile_off_the_board_changes_nothing() {
    let mut b = board(3, 3, 1);
    let before = b.get_directions();
    for p in [Pos::new(-1, 0), Pos::new(0, -1), Pos::new(3, 0), Pos::new(0, 3), Pos::new(9, 9)] {
        assert_eq!(b.rotate_tile(&p, RotationDirection::Right), 0);
        assert_eq!(b.rotate_tile(&p, RotationDirection::Left), 0);
    }
    assert_eq!(b.get_directions(), before);
}

#[test]
fn rotate_tile_turns_one_tile() {
    let mut b = board(3, 3, 2);
    let p = Pos::new(1, 1);
    let mut t = b.get_tile(&p);
    t.directions = 3;
    b.set_tile(&p, t);
    assert_eq!(b.rotate_tile(&p, RotationDirection::Right), 6);
    assert_eq!(b.get_tile(&p).directions, 6);
    assert_eq!(b.rotate_tile(&p, RotationDirection::Left), 3);
    t.directions = 15;
    b.set_tile(&p, t);
    assert_eq!(b.rotate_tile(&p, RotationDirection::Right), 0);
    assert_eq!(b.get_tile(&p).directions, 15);
    t.directions = 0;
    b.set_tile(&p, t);
    assert_eq!(b.rotate_tile(&p, RotationDirection::Left), 0);
}

#[test]
fn power_needs_both_stubs() {
    for s in 0u8..4 {
        let mut b = board(2, 1, s);
        let root = b.get_root();
        let other = Pos::new(1 - root.x, 0);
        let toward: u8 = if root.x == 0 { 2 } else { 8 };
        let back: u8 = if root.x == 0 { 8 } else { 2 };
        let mut a = Tile::new();
        a.kind = TileKind::SERVER;
        a.directions = toward;
        let mut t = Tile::new();
        t.kind = TileKind::TERMINAL;
        t.directions = 1;
        b.set_tile(&root, a);
        b.set_tile(&other, t);
        assert!(!b.is_solved());
        assert!(b.get_tile(&root).powered);
        assert!(!b.get_tile(&other).powered);
        t.directions = back;
        b.set_tile(&other, t);
        assert!(b.is_solved());
        assert!(b.get_tile(&other).powered);
    }
}

#[test]
fn every_board_spans_the_grid() {
    for s in 0u8..=255 {
        for (w, h) in [(7, 7), (5, 3), (2, 6)] {
            let b = board(w, h, s);
            assert_eq!(edges(&b), (w * h - 1) as u32);
        }
    }
}

#[test]
fn scramble_with_turns_each_tile() {
    let mut b = board(2, 2, 4);
    let before = b.get_directions();
    b.scramble_with(&vec![0, 1, 2, 1]);
    let after = b.get_directions();
    let turn = |m: u8, n: i32| {
        let mut t = Tile::new();
        t.directions = m;
        t.rotate(RotationDirection::Right, n);
        t.directions
    };
    assert_eq!(after[0], before[0]);
    assert_eq!(after[1], turn(before[1], 1));
    assert_eq!(after[2], turn(before[2], 2));
    assert_eq!(after[3], turn(before[3], 1));
}

#[test]
fn one_by_one_board() {
    let mut b = board(1, 1, 0);
    assert_eq!(b.get_root(), Pos::new(0, 0));
    let t = b.get_tile(&Pos::new(0, 0));
    assert_eq!(t.kind, TileKind::SERVER);
    assert_eq!(t.directions, 0);
    assert_eq!(b.get_neighbours(), vec![0]);
    assert!(b.is_solved());
    assert!(b.get_tile(&Pos::new(0, 0)).powered);
}

#[test]
fn get_tile_mut_writes_through() {
    let mut b = board(2, 2, 3);
    let p = Pos::new(1, 0);
    b.get_tile_mut(&p).directions = 9;
    assert_eq!(b.get_tile(&p).directions, 9);
    assert_eq!(b.get_directions()[1], 9);
}

#[test]
fn scramble_only_turns_tiles() {
    for s in 0u8..6 {
        let plain = board(5, 5, s);
        let game = Game::new(5, 5, seed_of(s));
        assert_eq!(game.board.get_root(), plain.get_root());
        assert_eq!(game.board.get_size(), plain.get_size());
        assert_eq!(*game.rng.seed(), seed_of(s));
        for y in 0..5 {
            for x in 0..5 {
                let p = Pos::new(x, y);
                let a = plain.get_tile(&p);
                let b = game.board.get_tile(&p);
                assert_eq!(a.kind, b.kind);
                let mut options = vec![];
                let mut t = a;
                for _ in 0..3 {
                    options.push(t.directions);
                    t.rotate(RotationDirection::Right, 1);
                }
                assert!(options.contains(&b.directions));
            }
        }
    }
}

#[test]
fn timer_starts_now() {
    let mut b = board(2, 2, 0);
    let before = std::time::Instant::now();
    b.start_timer();
    assert!(b.get_start_time() >= before);
    assert!(b.get_start_time() <= std::time::Instant::now());
}

#[test]
fn zero_seed_three_by_three_fixture() {
    let mut b = board(3, 3, 0);
    assert_eq!(edges(&b), 8);
    assert_eq!(b.get_root(), Pos::new(2, 1));
    assert_eq!(b.get_directions(), vec![6u8, 10, 12, 1, 6, 13, 2, 9, 1]);
    assert_eq!(b.get_tile(&Pos::new(2, 1)).kind, TileKind::SERVER);
    assert_eq!(b.get_tile(&Pos::new(0, 1)).kind, TileKind::TERMINAL);
    assert_eq!(b.get_tile(&Pos::new(1, 1)).kind, TileKind::CONNECTOR);
    assert!(b.is_solved());
}
