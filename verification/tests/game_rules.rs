use minesweeper::game::Game;
use minesweeper::minefield::Minefield;
use minesweeper::tile::{Tile, TileStatus};

fn count_mine_tiles(m: &Minefield) -> usize {
    let mut mines: usize = 0;
    for y in 0..m.size {
        for x in 0..m.size {
            if matches!(m.get_tile_at(x, y), Tile::Mine(_)) {
                mines += 1;
            }
        }
    }
    mines
}

fn neighbour_mines(m: &Minefield, x: usize, y: usize) -> u8 {
    let mut mines: u8 = 0;
    for dy in -1i32..=1 {
        for dx in -1i32..=1 {
            if dx == 0 && dy == 0 {
                continue;
            }
            let nx = x as i32 + dx;
            let ny = y as i32 + dy;
            if nx >= 0 && ny >= 0 && (nx as usize) < m.size && (ny as usize) < m.size {
                if matches!(m.get_tile_at(nx as usize, ny as usize), Tile::Mine(_)) {
                    mines += 1;
                }
            }
        }
    }
    mines
}

fn status_of(m: &Minefield, x: usize, y: usize) -> TileStatus {
    match m.get_tile_at(x, y) {
        Tile::Mine(st) => *st,
        Tile::Safe(st, _) => *st,
    }
}

fn find_mine(m: &Minefield) -> (usize, usize) {
    for y in 0..m.size {
        for x in 0..m.size {
            if matches!(m.get_tile_at(x, y), Tile::Mine(_)) {
                return (x, y);
            }
        }
    }
    panic!("no mine on the board");
}

#[test]
fn mine_count_is_exact() {
    for _ in 0..20 {
        let m = Minefield::new(4, 3);
        assert_eq!(count_mine_tiles(&m), 3);
    }
    assert_eq!(count_mine_tiles(&Minefield::new(1, 1)), 1);
    assert_eq!(count_mine_tiles(&Minefield::new(2, 0)), 0);
    assert_eq!(count_mine_tiles(&Minefield::new(3, 9)), 9);
}

#[test]
fn mine_count_is_exact_under_many_draws() {
    for _ in 0..50 {
        let m = Minefield::new(3, 5);
        assert_eq!(count_mine_tiles(&m), 5);
    }
}

#[test]
fn all_tiles_start_hidden() {
    let m = Minefield::new(4, 5);
    for y in 0..4 {
        for x in 0..4 {
            assert_eq!(status_of(&m, x, y), TileStatus::Hidden);
        }
    }
}

#[test]
fn adjacency_counts_match_neighbourhood() {
    for _ in 0..10 {
        let m = Minefield::new(5, 6);
        for y in 0..5 {
            for x in 0..5 {
                if let Tile::Safe(_, stored) = m.get_tile_at(x, y) {
                    assert_eq!(*stored, neighbour_mines(&m, x, y));
                    assert_eq!(m.get_tile_surrounding_mines(x, y), neighbour_mines(&m, x, y));
                }
            }
        }
    }
}

#[test]
fn first_revealed_tile_is_a_safe_zero() {
    for _ in 0..10 {
        let g = Game::new(4, 3, 2, 1);
        match g.minefield.get_tile_at(2, 1) {
            Tile::Safe(TileStatus::Revealed, 0) => {}
            other => panic!("first tile came out as {:?}", other),
        }
        for y in 0..4 {
            for x in 0..4 {
                if (x, y) != (2, 1) {
                    assert_eq!(status_of(&g.minefield, x, y), TileStatus::Hidden);
                }
            }
        }
    }
}

#[test]
fn first_reveal_works_from_a_corner() {
    let g = Game::new(3, 1, 0, 0);
    match g.minefield.get_tile_at(0, 0) {
        Tile::Safe(TileStatus::Revealed, 0) => {}
        other => panic!("first tile came out as {:?}", other),
    }
    assert_eq!(count_mine_tiles(&g.minefield), 1);
}

#[test]
fn session_keeps_mines_off_the_first_click_zone() {
    for _ in 0..20 {
        let g = Game::new(5, 8, 2, 2);
        assert_eq!(count_mine_tiles(&g.minefield), 8);
        for y in 1..=3 {
            for x in 1..=3 {
                assert!(!matches!(g.minefield.get_tile_at(x, y), Tile::Mine(_)));
            }
        }
    }
}

#[test]
fn flag_toggle_is_an_involution() {
    let mut m = Minefield::new(2, 0);
    assert_eq!(status_of(&m, 0, 0), TileStatus::Hidden);
    m.flag_tile(0, 0);
    assert_eq!(status_of(&m, 0, 0), TileStatus::Flagged);
    m.flag_tile(0, 0);
    assert_eq!(status_of(&m, 0, 0), TileStatus::Hidden);
}

#[test]
fn flag_on_a_revealed_tile_is_a_no_op() {
    let mut m = Minefield::new(2, 0);
    let outcome = m.reveal_tile(1, 1);
    assert!(outcome.is_ok());
    m.flag_tile(1, 1);
    assert_eq!(status_of(&m, 1, 1), TileStatus::Revealed);
}

#[test]
fn flagging_a_mine_toggles_too() {
    let mut m = Minefield::new(1, 1);
    m.flag_tile(0, 0);
    assert_eq!(status_of(&m, 0, 0), TileStatus::Flagged);
    m.flag_tile(0, 0);
    assert_eq!(status_of(&m, 0, 0), TileStatus::Hidden);
}

#[test]
fn revealing_a_mine_detonates_and_stays_revealed() {
    let mut m = Minefield::new(1, 1);
    let outcome = m.reveal_tile(0, 0);
    assert!(outcome.is_err());
    assert_eq!(status_of(&m, 0, 0), TileStatus::Revealed);
}

#[test]
fn revealing_a_safe_tile_continues() {
    let mut m = Minefield::new(2, 0);
    let outcome = m.reveal_tile(0, 1);
    assert!(outcome.is_ok());
    assert_eq!(status_of(&m, 0, 1), TileStatus::Revealed);
}

#[test]
fn reveal_ignores_a_flag() {
    let mut m = Minefield::new(2, 0);
    m.flag_tile(1, 0);
    assert_eq!(status_of(&m, 1, 0), TileStatus::Flagged);
    let outcome = m.reveal_tile(1, 0);
    assert!(outcome.is_ok());
    assert_eq!(status_of(&m, 1, 0), TileStatus::Revealed);
}

#[test]
fn reveal_all_turns_every_tile_face_up() {
    let mut m = Minefield::new(3, 2);
    m.flag_tile(0, 0);
    m.flag_tile(2, 2);
    m.reveal_all_tiles();
    for y in 0..3 {
        for x in 0..3 {
            assert_eq!(status_of(&m, x, y), TileStatus::Revealed);
        }
    }
}

#[test]
fn victory_needs_every_mine_flagged_and_every_safe_tile_revealed() {
    let mut m = Minefield::new(2, 1);
    let (mx, my) = find_mine(&m);
    assert!(m.check_victory().is_none());
    m.flag_tile(mx, my);
    for y in 0..2 {
        for x in 0..2 {
            if (x, y) != (mx, my) {
                assert!(m.reveal_tile(x, y).is_ok());
            }
        }
    }
    assert!(m.check_victory().is_some());
}

#[test]
fn victory_fails_while_a_safe_tile_stays_hidden() {
    let mut m = Minefield::new(2, 1);
    let (mx, my) = find_mine(&m);
    m.flag_tile(mx, my);
    let mut left_out = true;
    for y in 0..2 {
        for x in 0..2 {
            if (x, y) != (mx, my) {
                if left_out {
                    left_out = false;
                    continue;
                }
                assert!(m.reveal_tile(x, y).is_ok());
            }
        }
    }
    assert!(m.check_victory().is_none());
}

#[test]
fn victory_fails_when_the_mine_is_revealed_instead_of_flagged() {
    let mut m = Minefield::new(2, 1);
    let (mx, my) = find_mine(&m);
    for y in 0..2 {
        for x in 0..2 {
            let _ = m.reveal_tile(x, y);
        }
    }
    assert_eq!(status_of(&m, mx, my), TileStatus::Revealed);
    assert!(m.check_victory().is_none());
}

#[test]
fn victory_fails_when_a_safe_tile_is_flagged() {
    let mut m = Minefield::new(2, 1);
    let (mx, my) = find_mine(&m);
    m.flag_tile(mx, my);
    let (sx, sy) = if (mx, my) == (0, 0) { (1, 0) } else { (0, 0) };
    m.flag_tile(sx, sy);
    for y in 0..2 {
        for x in 0..2 {
            if (x, y) != (mx, my) && (x, y) != (sx, sy) {
                assert!(m.reveal_tile(x, y).is_ok());
            }
        }
    }
    assert_eq!(status_of(&m, sx, sy), TileStatus::Flagged);
    assert!(m.check_victory().is_none());
}

#[test]
fn empty_board_has_no_mines() {
    let m = Minefield::new(0, 0);
    assert_eq!(count_mine_tiles(&m), 0);
    let m = Minefield::new(2, 0);
    assert_eq!(count_mine_tiles(&m), 0);
    assert!(m.check_victory().is_none());
}

#[test]
fn mutable_lookup_writes_through() {
    let mut m = Minefield::new(2, 0);
    match *m.get_tile_at(0, 1) {
        Tile::Safe(st, n) => {
            assert_eq!(st, TileStatus::Hidden);
            *m.get_tile_at_mut(0, 1) = Tile::Safe(TileStatus::Flagged, n);
        }
        Tile::Mine(_) => panic!("expected a safe tile"),
    }
    assert_eq!(status_of(&m, 0, 1), TileStatus::Flagged);
}

#[test]
fn full_mine_board_wins_once_all_flagged() {
    let mut m = Minefield::new(2, 4);
    assert!(m.check_victory().is_none());
    for y in 0..2 {
        for x in 0..2 {
            m.flag_tile(x, y);
        }
    }
    assert!(m.check_victory().is_some());
}
