use battleship::board::Board;
use battleship::fleet::{DRAW_LIMIT, SHIPS};

/// The runs of ship cells on the board: (row, column, length, horizontal).
fn runs(b: &Board) -> Vec<(usize, usize, usize, bool)> {
    let mut seen = [[false; 10]; 10];
    let mut found = Vec::new();
    for i in 0..10 {
        for j in 0..10 {
            if b.0[i][j] != 's' || seen[i][j] {
                continue;
            }
            let mut across = 1;
            while j + across < 10 && b.0[i][j + across] == 's' {
                across += 1;
            }
            let mut down = 1;
            while i + down < 10 && b.0[i + down][j] == 's' {
                down += 1;
            }
            assert!(across == 1 || down == 1, "ship cells form a corner at ({i}, {j})");
            if across > 1 {
                for k in 0..across {
                    seen[i][j + k] = true;
                }
                found.push((i, j, across, true));
            } else {
                for k in 0..down {
                    seen[i + k][j] = true;
                }
                found.push((i, j, down, false));
            }
        }
    }
    found
}

fn covers(run: &(usize, usize, usize, bool), i: usize, j: usize) -> bool {
    let (x, y, len, across) = *run;
    if across {
        i == x && y <= j && j < y + len
    } else {
        j == y && x <= i && i < x + len
    }
}

#[test]
fn fleet_constants() {
    assert_eq!(SHIPS, [5, 4, 3, 3, 2]);
    assert_eq!(DRAW_LIMIT, 1000);
}

#[test]
fn random_board_holds_the_five_ships() {
    for _ in 0..300 {
        let b = Board::randomize();
        let mut lengths: Vec<usize> = runs(&b).iter().map(|r| r.2).collect();
        lengths.sort();
        assert_eq!(lengths, vec![2, 3, 3, 4, 5]);
        let cells = b.0.iter().flatten().filter(|c| **c == 's').count();
        assert_eq!(cells, 17);
    }
}

#[test]
fn random_board_holds_only_ships_and_water() {
    for _ in 0..100 {
        let b = Board::randomize();
        assert!(b.0.iter().flatten().all(|c| *c == 's' || *c == 'e'));
        assert!(b.validate_syntax());
        assert!(!b.is_game_over());
    }
}

#[test]
fn random_ships_do_not_touch() {
    for _ in 0..300 {
        let b = Board::randomize();
        let found = runs(&b);
        for i in 0..10usize {
            for j in 0..10usize {
                if b.0[i][j] != 's' {
                    continue;
                }
                let own = found.iter().find(|r| covers(r, i, j)).unwrap();
                for di in -1i32..=1 {
                    for dj in -1i32..=1 {
                        let (ni, nj) = (i as i32 + di, j as i32 + dj);
                        if ni < 0 || nj < 0 || ni > 9 || nj > 9 {
                            continue;
                        }
                        let (ni, nj) = (ni as usize, nj as usize);
                        if b.0[ni][nj] == 's' {
                            assert!(covers(own, ni, nj), "ships touch at ({i}, {j}) and ({ni}, {nj})");
                        }
                    }
                }
            }
        }
    }
}

#[test]
fn random_boards_differ() {
    let first = Board::randomize();
    let mut differs = false;
    for _ in 0..50 {
        if Board::randomize() != first {
            differs = true;
        }
    }
    assert!(differs);
}

#[test]
fn random_boards_use_both_orientations() {
    let mut across = 0;
    let mut down = 0;
    for _ in 0..100 {
        for r in runs(&Board::randomize()) {
            if r.3 {
                across += 1;
            } else {
                down += 1;
            }
        }
    }
    assert_eq!(across + down, 500);
    assert!(across > 100 && down > 100);
}

#[test]
fn random_ship_overlaps_itself_and_leaves_room_elsewhere() {
    let b = Board::randomize();
    for r in runs(&b) {
        assert!(b.is_overlapping(r.0 as i32, r.1 as i32, r.2 as i32, r.3));
    }
}

#[test]
fn first_free_place_on_open_water_is_the_corner() {
    let b = Board::empty();
    for length in 1..=10 {
        assert_eq!(b.first_free_place(length, true), Some((0, 0)));
        assert_eq!(b.first_free_place(length, false), Some((0, 0)));
    }
}

#[test]
fn first_free_place_keeps_clear_of_what_is_there() {
    let mut b = Board::empty();
    b.put(0, 0, 's');
    assert_eq!(b.first_free_place(2, true), Some((0, 2)));
    assert_eq!(b.first_free_place(2, false), Some((0, 2)));
    assert_eq!(b.first_free_place(9, true), Some((2, 0)));
    assert_eq!(b.first_free_place(9, false), Some((0, 2)));
    assert_eq!(b.first_free_place(10, true), Some((2, 0)));
    assert_eq!(b.first_free_place(10, false), Some((0, 2)));
    // a miss blocks like a ship
    let mut c = Board::empty();
    c.put(0, 5, 'm');
    assert_eq!(c.first_free_place(5, true), Some((2, 0)));
    assert_eq!(c.first_free_place(4, true), Some((0, 0)));
    assert_eq!(c.first_free_place(5, false), Some((0, 0)));
}

#[test]
fn first_free_place_finds_the_last_gap() {
    // everything is taken but a gap in the far corner
    let mut b = Board([['m'; 10]; 10]);
    for i in 7..10 {
        for j in 6..10 {
            b.put(i, j, 'e');
        }
    }
    assert_eq!(b.first_free_place(2, true), Some((8, 7)));
    assert_eq!(b.first_free_place(2, false), Some((8, 7)));
    assert_eq!(b.first_free_place(3, true), Some((8, 7)));
    assert_eq!(b.first_free_place(3, false), None);
    assert_eq!(b.first_free_place(4, true), None);
}

#[test]
fn first_free_place_on_a_crowded_board_is_none() {
    let b = Board([['s'; 10]; 10]);
    assert_eq!(b.first_free_place(1, true), None);
    assert_eq!(b.first_free_place(1, false), None);
    // a run of ten needs three clear rows or columns
    let mut c = Board::empty();
    c.put(5, 5, 'm');
    assert_eq!(c.first_free_place(10, false), Some((0, 0)));
    assert_eq!(c.first_free_place(10, true), Some((0, 0)));
    c.put(1, 0, 'm');
    c.put(8, 9, 'm');
    assert_eq!(c.first_free_place(10, true), Some((3, 0)));
    assert_eq!(c.first_free_place(10, false), Some((0, 2)));
    let mut d = Board::empty();
    for j in [1, 4, 7, 9] {
        d.put(5, j, 'm');
    }
    assert_eq!(d.first_free_place(10, false), None);
    assert_eq!(d.first_free_place(10, true), Some((0, 0)));
    assert_eq!(d.first_free_place(4, false), Some((0, 0)));
}

#[test]
fn first_free_place_agrees_with_the_overlap_test() {
    // whatever the answer, it agrees with the overlap test
    for _ in 0..50 {
        let b = Board::randomize();
        match b.first_free_place(2, true) {
            Some((x, y)) => {
                assert!(!b.is_overlapping(x, y, 2, true));
                for i in 0..x {
                    for j in 0..9 {
                        assert!(b.is_overlapping(i, j, 2, true));
                    }
                }
                for j in 0..y {
                    assert!(b.is_overlapping(x, j, 2, true));
                }
            }
            None => {
                for i in 0..10 {
                    for j in 0..9 {
                        assert!(b.is_overlapping(i, j, 2, true));
                    }
                }
            }
        }
    }
}
