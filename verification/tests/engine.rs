use tetris::Direction;
use tetris::Kind;
use tetris::Pos;
use tetris::Shape;
use tetris::Tetris;

const KINDS: [Kind; 7] = [Kind::I, Kind::O, Kind::T, Kind::J, Kind::L, Kind::S, Kind::Z];

fn sorted_cells(shape: &Shape) -> Vec<(i32, i32)> {
    let mut v: Vec<(i32, i32)> = shape.position().iter().map(|p| (p.0, p.1)).collect();
    v.sort();
    v
}

#[test]
fn test() {
    let res = Tetris::new(20, 30);
    println!("{:#?}", res);
}

#[test]
fn every_kind_has_four_distinct_cells() {
    for k in KINDS {
        let s = Shape::new_kind(k);
        let cells = sorted_cells(&s);
        assert_eq!(cells.len(), 4);
        for i in 0..cells.len() {
            for j in 0..i {
                assert_ne!(cells[i], cells[j]);
            }
        }
    }
}

#[test]
fn random_shape_has_four_cells() {
    for _ in 0..50 {
        let s = Shape::new_random();
        assert_eq!(s.position().len(), 4);
    }
}

#[test]
fn symbols_are_fixed_per_kind() {
    assert_eq!(Shape::new_kind(Kind::I).typ(), "🟦");
    assert_eq!(Shape::new_kind(Kind::O).typ(), "🟨");
    assert_eq!(Shape::new_kind(Kind::T).typ(), "🟫");
    assert_eq!(Shape::new_kind(Kind::J).typ(), "🟪");
    assert_eq!(Shape::new_kind(Kind::L).typ(), "🟧");
    assert_eq!(Shape::new_kind(Kind::S).typ(), "🟩");
    assert_eq!(Shape::new_kind(Kind::Z).typ(), "🟥");
}

#[test]
fn rotation_follows_the_anchor_formula() {
    // T template: cells (0,0),(1,0),(2,0),(1,1), anchor (0,0);
    // (x, y) maps to (-y + ax + ay, x - ax + ay).
    let t = Shape::new_kind(Kind::T).rotate();
    let cells = sorted_cells(&t);
    assert_eq!(cells, vec![(-1, 1), (0, 0), (0, 1), (0, 2)]);
    assert!(t.has_position(Pos(-1, 1)));
    assert!(!t.has_position(Pos(1, 0)));
}

#[test]
fn four_rotations_restore_every_kind() {
    for k in KINDS {
        let s = Shape::new_kind(k);
        let r4 = s.rotate().rotate().rotate().rotate();
        assert_eq!(sorted_cells(&s), sorted_cells(&r4));
    }
}

#[test]
fn translation_moves_cells_and_collisions_follow() {
    let a = Shape::new_kind(Kind::O);
    let b = a.add(Pos(1, 1));
    assert_eq!(sorted_cells(&b), vec![(1, 1), (1, 2), (2, 1), (2, 2)]);
    // (1,1) is shared, so they collide, symmetrically.
    assert!(a.collides_with(&b));
    assert!(b.collides_with(&a));
    let c = a.add(Pos(2, 0));
    assert!(!a.collides_with(&c));
    assert!(!c.collides_with(&a));
}

#[test]
fn remove_line_drops_the_row_and_shifts_above() {
    // O piece occupying rows 2 and 3 in columns 0 and 1.
    let mut s = Shape::new_kind(Kind::O).add(Pos(0, 2));
    s.remove_line(3);
    // Row 3 deleted; the two cells of row 2 dropped into row 3.
    assert_eq!(sorted_cells(&s), vec![(0, 3), (1, 3)]);
}

#[test]
fn remove_line_on_untouched_row_still_shifts_above() {
    // Cells in rows 0 and 1 only; clearing row 3 shifts them all down.
    let mut s = Shape::new_kind(Kind::O);
    s.remove_line(3);
    assert_eq!(sorted_cells(&s), vec![(0, 1), (0, 2), (1, 1), (1, 2)]);
}

#[test]
fn new_board_centers_the_spawn() {
    let t = Tetris::new_with_kind(10, 5, Kind::O);
    // O template plus (10/2 - 1, 0).
    let mut cells: Vec<(i32, i32)> = t.control_position().iter().map(|p| (p.0, p.1)).collect();
    cells.sort();
    assert_eq!(cells, vec![(4, 0), (4, 1), (5, 0), (5, 1)]);
    assert!(!t.is_lost());
}

#[test]
fn iter_positions_is_row_major() {
    let t = Tetris::new_with_kind(3, 2, Kind::O);
    let cells: Vec<(i32, i32)> = t.iter_positions().iter().map(|p| (p.0, p.1)).collect();
    assert_eq!(cells, vec![(0, 0), (1, 0), (2, 0), (0, 1), (1, 1), (2, 1)]);
}

#[test]
fn occupant_reports_control_cells_only() {
    let t = Tetris::new_with_kind(4, 4, Kind::O);
    // Fresh O sits at columns 1 and 2, rows 0 and 1.
    for y in 0..4 {
        for x in 0..4 {
            let expected = if (1..=2).contains(&x) && (0..=1).contains(&y) {
                Some("🟨")
            } else {
                None
            };
            assert_eq!(t.get_target_position(Pos(x, y)), expected);
        }
    }
}

#[test]
fn rejected_shift_changes_nothing() {
    let mut t = Tetris::new_with_kind(4, 6, Kind::O);
    t.shift(Direction::Left);
    let before = t.control_position();
    // Another left shift would cross the wall: silently rejected.
    t.shift(Direction::Left);
    let after = t.control_position();
    assert_eq!(before, after);
}

#[test]
fn rejected_rotate_changes_nothing() {
    let mut t = Tetris::new_with_kind(4, 6, Kind::O);
    t.shift(Direction::Left);
    let before = t.control_position();
    // Rotating the O at the left wall would map a cell to column -1.
    t.rotate();
    let after = t.control_position();
    assert_eq!(before, after);
}

#[test]
fn accepted_shift_moves_one_column() {
    let mut t = Tetris::new_with_kind(4, 6, Kind::O);
    t.shift(Direction::Right);
    let mut cells: Vec<(i32, i32)> = t.control_position().iter().map(|p| (p.0, p.1)).collect();
    cells.sort();
    assert_eq!(cells, vec![(2, 0), (2, 1), (3, 0), (3, 1)]);
}

#[test]
fn filling_rows_clears_them() {
    // Width 2: a single O fills rows 2 and 3 when it lands; both rows
    // are full and both are cleared in the same tick.
    let mut t = Tetris::new_with_kind(2, 4, Kind::O);
    t.tick_with_kind(Kind::O);
    t.tick_with_kind(Kind::O);
    t.tick_with_kind(Kind::O); // locks at rows 2 and 3, clears both
    assert!(!t.is_lost());
    // Everything occupied now belongs to the fresh control piece.
    let control: Vec<(i32, i32)> = t.control_position().iter().map(|p| (p.0, p.1)).collect();
    for y in 0..4 {
        for x in 0..2 {
            let occ = t.get_target_position(Pos(x, y));
            if control.contains(&(x, y)) {
                assert_eq!(occ, Some("🟨"));
            } else {
                assert_eq!(occ, None);
            }
        }
    }
}

#[test]
fn loss_is_permanent() {
    let mut t = Tetris::new_with_kind(4, 4, Kind::O);
    t.tick_with_kind(Kind::O);
    t.tick_with_kind(Kind::O);
    t.tick_with_kind(Kind::O); // locks at rows 2-3, columns 1-2
    assert!(!t.is_lost());
    t.tick_with_kind(Kind::O); // locks at rows 0-1; the spawn collides
    assert!(t.is_lost());
    t.tick_with_kind(Kind::I);
    assert!(t.is_lost());
    t.tick();
    assert!(t.is_lost());
    t.shift(Direction::Left);
    assert!(t.is_lost());
    t.rotate();
    assert!(t.is_lost());
}

#[test]
fn o_piece_locks_at_the_bottom_and_a_fresh_piece_spawns() {
    let mut t = Tetris::new_with_kind(4, 4, Kind::O);
    t.shift(Direction::Left); // O now at (0,0)..(1,1)
    t.tick_with_kind(Kind::O); // rows 1-2
    t.tick_with_kind(Kind::O); // rows 2-3
    t.tick_with_kind(Kind::O); // blocked by the floor: locks, fresh O spawns
    // The O locked against the floor: its bottom row is row 3.
    assert_eq!(t.get_target_position(Pos(0, 3)), Some("🟨"));
    assert_eq!(t.get_target_position(Pos(1, 3)), Some("🟨"));
    assert!(!t.is_lost());
    // The fresh control piece is disjoint from those landed cells.
    let control: Vec<(i32, i32)> = t.control_position().iter().map(|p| (p.0, p.1)).collect();
    assert_eq!(control.len(), 4);
    assert!(!control.contains(&(0, 3)));
    assert!(!control.contains(&(1, 3)));
}

#[test]
fn single_full_row_is_cleared() {
    let mut t = Tetris::new_with_kind(4, 6, Kind::I);
    t.tick_with_kind(Kind::I); // drop one row so the rotation stays on the board
    t.shift(Direction::Right);
    t.rotate(); // the I piece now lies flat across row 0
    let mut cells: Vec<(i32, i32)> = t.control_position().iter().map(|p| (p.0, p.1)).collect();
    cells.sort();
    assert_eq!(cells, vec![(0, 0), (1, 0), (2, 0), (3, 0)]);
    for _ in 0..6 {
        t.tick_with_kind(Kind::O);
    }
    // The I locked across row 5, filling the whole row, which was then
    // cleared in the same tick: only the fresh control piece remains.
    assert!(!t.is_lost());
    let control: Vec<(i32, i32)> = t.control_position().iter().map(|p| (p.0, p.1)).collect();
    for y in 0..6 {
        for x in 0..4 {
            let occ = t.get_target_position(Pos(x, y));
            if control.contains(&(x, y)) {
                assert_eq!(occ, Some("🟨"));
            } else {
                assert_eq!(occ, None);
            }
        }
    }
}

#[test]
fn kind_tag_is_preserved() {
    for k in KINDS {
        let s = Shape::new_kind(k);
        assert_eq!(s.kind(), k);
        assert_eq!(s.add(Pos(3, 4)).kind(), k);
        assert_eq!(s.rotate().kind(), k);
    }
}

#[test]
fn has_position_matches_cells() {
    let s = Shape::new_kind(Kind::I);
    assert!(s.has_position(Pos(0, 0)));
    assert!(s.has_position(Pos(0, 3)));
    assert!(!s.has_position(Pos(1, 0)));
    assert!(!s.has_position(Pos(0, 4)));
}
