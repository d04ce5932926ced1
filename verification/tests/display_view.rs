use battleship::board::Board;

const OPEN: &str = "eeeeeeeeee";

fn strings(rows: &[&str]) -> Vec<String> {
    rows.iter().map(|r| r.to_string()).collect()
}

fn board(rows: [&str; 10]) -> Board {
    Board::from_rows(&strings(&rows)).unwrap()
}

#[test]
fn hit_on_a_ship_afloat_flags_its_corners_only() {
    let b = board([OPEN, OPEN, OPEN, OPEN, "eeeehseeee", OPEN, OPEN, OPEN, OPEN, OPEN]);
    // corners of (4,4) are (3,3), (3,5), (5,3), (5,5)
    let mut want = strings(&[OPEN; 10]);
    want[3] = "eeememeeee".to_string();
    want[4] = "eeeehseeee".to_string();
    want[5] = "eeememeeee".to_string();
    assert_eq!(b.mark_redundant().to_rows(), want);
}

#[test]
fn sunk_ship_is_ringed_with_misses() {
    let b = board([OPEN, OPEN, OPEN, OPEN, "eeeehheeee", OPEN, OPEN, OPEN, OPEN, OPEN]);
    let mut want = strings(&[OPEN; 10]);
    want[3] = "eeemmmmeee".to_string();
    want[4] = "eeemhhmeee".to_string();
    want[5] = "eeemmmmeee".to_string();
    assert_eq!(b.mark_redundant().to_rows(), want);
}

#[test]
fn sunk_ship_in_a_corner_is_ringed_inside_the_board() {
    let b = board(["hheeeeeeee", OPEN, OPEN, OPEN, OPEN, OPEN, OPEN, OPEN, OPEN, "eeeeeeeeeh"]);
    let mut want = strings(&[OPEN; 10]);
    want[0] = "hhmeeeeeee".to_string();
    want[1] = "mmmeeeeeee".to_string();
    want[8] = "eeeeeeeemm".to_string();
    want[9] = "eeeeeeeemh".to_string();
    assert_eq!(b.mark_redundant().to_rows(), want);
}

#[test]
fn board_without_hits_is_left_alone() {
    let b = board(["sssssemeee", OPEN, "eeeeeeeeem", OPEN, OPEN, OPEN, "eeessseeee", OPEN, OPEN, OPEN]);
    assert_eq!(b.mark_redundant(), b);
    assert_eq!(Board::empty().mark_redundant(), Board::empty());
}

#[test]
fn intact_cells_beside_a_hit_stay_and_block_the_ring() {
    let b = board([OPEN, "ehhseeeeee", OPEN, OPEN, OPEN, OPEN, OPEN, OPEN, OPEN, OPEN]);
    let mut want = strings(&[OPEN; 10]);
    want[0] = "mmmmeeeeee".to_string();
    want[1] = "ehhseeeeee".to_string();
    want[2] = "mmmmeeeeee".to_string();
    assert_eq!(b.mark_redundant().to_rows(), want);
}

#[test]
fn marking_twice_equals_marking_once() {
    let samples = [
        board([OPEN, OPEN, OPEN, OPEN, "eeeehseeee", OPEN, OPEN, OPEN, OPEN, OPEN]),
        board([OPEN, OPEN, OPEN, OPEN, "eeeehheeee", OPEN, OPEN, OPEN, OPEN, OPEN]),
        board(["hheeeeeeee", OPEN, "hhheseeeeh", OPEN, "emmeeeeeeh", OPEN, OPEN, "shhhseeeee", OPEN, "meeeeeeehh"]),
        board(["hhhhhehhhh", OPEN, "hhhesseeee", OPEN, "sseeeeeeee", OPEN, OPEN, OPEN, OPEN, OPEN]),
    ];
    for b in samples {
        let once = b.mark_redundant();
        assert_eq!(once.mark_redundant(), once);
    }
}

#[test]
fn marking_is_idempotent_on_random_fleets_under_fire() {
    for round in 0..40 {
        let mut b = Board::randomize();
        // a fixed pattern of shots that depends on the round
        for k in 0..60usize {
            let i = (k * 7 + round * 3) % 10;
            let j = (k * 3 + round + k / 10) % 10;
            let _ = b.apply_attack((i, j));
        }
        let once = b.mark_redundant();
        assert_eq!(once.mark_redundant(), once);
        // ship cells are never touched
        for i in 0..10 {
            for j in 0..10 {
                if b.0[i][j] == 's' || b.0[i][j] == 'h' {
                    assert_eq!(once.0[i][j], b.0[i][j]);
                }
                if once.0[i][j] != b.0[i][j] {
                    assert_eq!(once.0[i][j], 'm');
                }
            }
        }
    }
}

#[test]
fn scan_order_decides_on_a_board_with_touching_hits() {
    // (0,0) is handled first and turns the hit at (1,1) into a miss, so the
    // corners of (1,1) are never flagged
    let b = board(["heeeeeeeee", "eheeeeeeee", OPEN, OPEN, OPEN, OPEN, OPEN, OPEN, OPEN, OPEN]);
    let mut want = strings(&[OPEN; 10]);
    want[0] = "hmeeeeeeee".to_string();
    want[1] = "mmeeeeeeee".to_string();
    assert_eq!(b.mark_redundant().to_rows(), want);
}

#[test]
fn second_pass_can_differ_where_a_hit_touches_a_ship_at_a_corner() {
    let b = board(["heeeeeeeee", "seeeeeeeee", "eheeeeeeee", OPEN, OPEN, OPEN, OPEN, OPEN, OPEN, OPEN]);
    let once = b.mark_redundant();
    let mut want = strings(&[OPEN; 10]);
    want[0] = "heeeeeeeee".to_string();
    want[1] = "mmmeeeeeee".to_string();
    want[2] = "mhmeeeeeee".to_string();
    want[3] = "mmmeeeeeee".to_string();
    assert_eq!(once.to_rows(), want);
    let twice = once.mark_redundant();
    want[0] = "hmeeeeeeee".to_string();
    assert_eq!(twice.to_rows(), want);
}

#[test]
fn opponent_view_flags_then_conceals() {
    let b = board(["hhesseeeee", OPEN, OPEN, OPEN, "eeeehseeee", OPEN, OPEN, OPEN, OPEN, OPEN]);
    let shown = b.mark_redundant().conceal();
    let mut want = strings(&[OPEN; 10]);
    want[0] = "hhmeeeeeee".to_string();
    want[1] = "mmmeeeeeee".to_string();
    want[3] = "eeememeeee".to_string();
    want[4] = "eeeeheeeee".to_string();
    want[5] = "eeememeeee".to_string();
    assert_eq!(shown.to_rows(), want);
}
