use battleship::board::Board;
use battleship::game::{
    add_board, add_room, add_room_from, attack, delete_sid, get_game_state, get_room,
    in_delete_sid, join_room, join_with_code, leave_or_disconnect, open_room,
    room_if_player_exists, start, to_delete_sid, update_sid, Error, Fault, Status,
};
use battleship::rendezvous::{collect_boards, rendezvous_complete};
use battleship::store::{Player, Room, Store};

const OPEN: &str = "eeeeeeeeee";

fn strings(rows: &[&str]) -> Vec<String> {
    rows.iter().map(|r| r.to_string()).collect()
}

fn board(rows: [&str; 10]) -> Board {
    Board::from_rows(&strings(&rows)).unwrap()
}

/// A legal fleet: 5 in row 0, 4 in row 2, 3 in row 4, 3 in row 6, 2 in row 8.
fn fleet() -> Board {
    board([
        "ssssseeeee", OPEN, "sssseeeeee", OPEN, "ssseeeeeee", OPEN, "ssseeeeeee", OPEN,
        "sseeeeeeee", OPEN,
    ])
}

fn id(s: &str) -> Option<String> {
    Some(s.to_string())
}

/// Alice opens a room, Bob joins, both upload the same fleet.
fn two_seated() -> (Store, String) {
    let mut store = Store::new();
    let code = add_room("alice", &mut store).unwrap();
    join_room("bob", code.clone(), &mut store).unwrap();
    add_board("alice", fleet(), &mut store).unwrap();
    add_board("bob", fleet(), &mut store).unwrap();
    (store, code)
}

/// A match in which Alice asked to start, so that Bob attacks first.
fn started() -> (Store, String) {
    let (mut store, code) = two_seated();
    start("alice", code.clone(), &mut store).unwrap();
    (store, code)
}

fn ship_cells() -> Vec<(usize, usize)> {
    let b = fleet();
    let mut cells = Vec::new();
    for i in 0..10 {
        for j in 0..10 {
            if b.0[i][j] == 's' {
                cells.push((i, j));
            }
        }
    }
    cells
}

/// Bob sinks Alice's whole fleet.
fn finished() -> (Store, String) {
    let (mut store, code) = started();
    for cell in ship_cells() {
        attack("bob", cell, &mut store).unwrap();
    }
    assert_eq!(store.rooms[0].stat, Status::GameOver);
    (store, code)
}

#[test]
fn create_join_start_attack_scenario() {
    let mut store = Store::new();
    let code = add_room("alice", &mut store).unwrap();
    assert_eq!(code.chars().count(), 4);
    assert!(code.chars().all(|c| c.is_ascii_digit() || c.is_ascii_uppercase()));
    assert_eq!(
        store.rooms,
        vec![Room { code: code.clone(), player1_id: id("alice"), player2_id: None, stat: Status::Waiting }]
    );
    assert_eq!(
        store.players,
        vec![Player { id: "alice".to_string(), room_code: code.clone(), board: None, abandoned: false }]
    );

    assert_eq!(join_room("bob", code.clone(), &mut store), Ok(()));
    assert_eq!(store.rooms[0].player1_id, id("alice"));
    assert_eq!(store.rooms[0].player2_id, id("bob"));
    assert_eq!(store.rooms[0].stat, Status::Waiting);
    assert_eq!(store.players[1], Player { id: "bob".to_string(), room_code: code.clone(), board: None, abandoned: false });

    add_board("alice", fleet(), &mut store).unwrap();
    add_board("bob", fleet(), &mut store).unwrap();

    assert_eq!(start("alice", code.clone(), &mut store), Ok(()));
    assert_eq!(store.rooms[0].stat, Status::P2Turn);

    // Bob hits a ship cell: the turn stays with Bob
    assert_eq!(attack("bob", (0, 0), &mut store), Ok((true, None, false)));
    assert_eq!(store.rooms[0].stat, Status::P2Turn);
    assert_eq!(store.players[0].board.unwrap().0[0][0], 'h');

    // Bob misses: the turn passes to Alice
    assert_eq!(attack("bob", (1, 0), &mut store), Ok((false, None, false)));
    assert_eq!(store.rooms[0].stat, Status::P1Turn);
    assert_eq!(store.players[0].board.unwrap().0[1][0], 'm');

    // Bob's own board was never touched
    assert_eq!(store.players[1].board, Some(fleet()));
    assert!(store.is_wf());
}

#[test]
fn start_by_the_second_player_gives_the_first_the_turn() {
    let (mut store, code) = two_seated();
    assert_eq!(start("bob", code, &mut store), Ok(()));
    assert_eq!(store.rooms[0].stat, Status::P1Turn);
    assert_eq!(attack("alice", (9, 9), &mut store), Ok((false, None, false)));
    assert_eq!(store.rooms[0].stat, Status::P2Turn);
}

#[test]
fn turns_alternate_on_misses_and_stay_on_hits() {
    let (mut store, _) = started();
    assert_eq!(attack("bob", (9, 9), &mut store), Ok((false, None, false)));
    assert_eq!(store.rooms[0].stat, Status::P1Turn);
    assert_eq!(attack("alice", (0, 0), &mut store), Ok((true, None, false)));
    assert_eq!(store.rooms[0].stat, Status::P1Turn);
    assert_eq!(attack("alice", (0, 1), &mut store), Ok((true, None, false)));
    assert_eq!(store.rooms[0].stat, Status::P1Turn);
    assert_eq!(attack("alice", (9, 9), &mut store), Ok((false, None, false)));
    assert_eq!(store.rooms[0].stat, Status::P2Turn);
    assert_eq!(attack("bob", (9, 8), &mut store), Ok((false, None, false)));
    assert_eq!(store.rooms[0].stat, Status::P1Turn);
}

#[test]
fn attack_out_of_turn_is_refused() {
    let (mut store, _) = started();
    let before = store.clone();
    assert_eq!(attack("alice", (0, 0), &mut store), Err(Error::RoomNotFull));
    assert_eq!(store, before);
}

#[test]
fn attack_before_the_match_started_is_refused() {
    let (mut store, _) = two_seated();
    let before = store.clone();
    assert_eq!(attack("alice", (0, 0), &mut store), Err(Error::RoomNotFull));
    assert_eq!(attack("bob", (0, 0), &mut store), Err(Error::RoomNotFull));
    assert_eq!(store, before);
}

#[test]
fn attack_alone_in_a_room_is_refused() {
    let mut store = Store::new();
    add_room("alice", &mut store).unwrap();
    assert_eq!(attack("alice", (0, 0), &mut store), Err(Error::RoomNotFull));
}

#[test]
fn attack_by_a_stranger_finds_no_player() {
    let (mut store, _) = started();
    let before = store.clone();
    assert_eq!(attack("carol", (0, 0), &mut store), Err(Error::Persistence(Fault::PlayerMissing)));
    assert_eq!(store, before);
}

#[test]
fn attack_on_a_resolved_cell_is_invalid_and_keeps_the_turn() {
    let (mut store, _) = started();
    assert_eq!(attack("bob", (0, 0), &mut store), Ok((true, None, false)));
    let before = store.clone();
    assert_eq!(attack("bob", (0, 0), &mut store), Err(Error::InvalidMove));
    assert_eq!(store, before);
    assert_eq!(attack("bob", (5, 5), &mut store), Ok((false, None, false)));
    assert_eq!(attack("alice", (3, 3), &mut store), Ok((false, None, false)));
    let before = store.clone();
    assert_eq!(attack("bob", (5, 5), &mut store), Err(Error::InvalidMove));
    assert_eq!(store, before);
    assert_eq!(store.rooms[0].stat, Status::P2Turn);
}

#[test]
fn match_attack_off_the_board_is_invalid() {
    let (mut store, _) = started();
    let before = store.clone();
    assert_eq!(attack("bob", (10, 0), &mut store), Err(Error::InvalidMove));
    assert_eq!(attack("bob", (0, 10), &mut store), Err(Error::InvalidMove));
    assert_eq!(store, before);
}

#[test]
fn attack_needs_the_defenders_board() {
    let mut store = Store::new();
    let code = add_room("alice", &mut store).unwrap();
    join_room("bob", code.clone(), &mut store).unwrap();
    add_board("bob", fleet(), &mut store).unwrap();
    start("alice", code, &mut store).unwrap();
    let before = store.clone();
    assert_eq!(attack("bob", (0, 0), &mut store), Err(Error::Persistence(Fault::BoardMissing)));
    assert_eq!(store, before);
}

#[test]
fn attack_in_a_room_that_vanished_finds_no_room() {
    let (mut store, _) = started();
    store.rooms.clear();
    assert!(store.is_wf());
    assert_eq!(attack("bob", (0, 0), &mut store), Err(Error::Persistence(Fault::RoomMissing)));
}

#[test]
fn sinking_a_ship_reports_its_box() {
    let (mut store, _) = started();
    assert_eq!(attack("bob", (8, 0), &mut store), Ok((true, None, false)));
    assert_eq!(attack("bob", (8, 1), &mut store), Ok((true, Some([(8, 0), (8, 1)]), false)));
    assert_eq!(attack("bob", (4, 2), &mut store), Ok((true, None, false)));
    assert_eq!(attack("bob", (4, 0), &mut store), Ok((true, None, false)));
    assert_eq!(attack("bob", (4, 1), &mut store), Ok((true, Some([(4, 0), (4, 2)]), false)));
    assert_eq!(store.rooms[0].stat, Status::P2Turn);
}

#[test]
fn last_hit_ends_the_game() {
    let (mut store, _) = started();
    let cells = ship_cells();
    assert_eq!(cells.len(), 17);
    for cell in &cells[..16] {
        let (hit, _, over) = attack("bob", *cell, &mut store).unwrap();
        assert!(hit);
        assert!(!over);
        assert_eq!(store.rooms[0].stat, Status::P2Turn);
    }
    assert_eq!(attack("bob", cells[16], &mut store), Ok((true, Some([(8, 0), (8, 1)]), true)));
    assert_eq!(store.rooms[0].stat, Status::GameOver);
    assert!(store.players[0].board.unwrap().is_game_over());
    // nobody may attack any more
    assert_eq!(attack("bob", (9, 9), &mut store), Err(Error::RoomNotFull));
    assert_eq!(attack("alice", (9, 9), &mut store), Err(Error::RoomNotFull));
}

#[test]
fn miss_on_a_board_without_ships_ends_the_game() {
    let mut store = Store::new();
    let code = add_room("alice", &mut store).unwrap();
    join_room("bob", code.clone(), &mut store).unwrap();
    add_board("alice", Board::empty(), &mut store).unwrap();
    add_board("bob", fleet(), &mut store).unwrap();
    start("alice", code, &mut store).unwrap();
    assert_eq!(attack("bob", (0, 0), &mut store), Ok((false, None, true)));
    assert_eq!(store.rooms[0].stat, Status::GameOver);
}

#[test]
fn join_matches_the_code_in_upper_case() {
    let mut store = Store::new();
    open_room("alice", "AB1Z", &mut store);
    assert_eq!(join_room("bob", "ab1z".to_string(), &mut store), Ok(()));
    assert_eq!(store.rooms[0].player2_id, id("bob"));
    assert_eq!(store.players[1].room_code, "AB1Z");
}

#[test]
fn join_by_exact_code_does_not_change_case() {
    let mut store = Store::new();
    open_room("alice", "AB1Z", &mut store);
    assert_eq!(
        join_with_code("bob", "ab1z", &mut store),
        Err(Error::Persistence(Fault::RoomMissing))
    );
    assert_eq!(join_with_code("bob", "AB1Z", &mut store), Ok(()));
}

#[test]
fn join_unknown_room_finds_no_room() {
    let mut store = Store::new();
    add_room("alice", &mut store).unwrap();
    let before = store.clone();
    let other = if store.rooms[0].code == "ZZZZ" { "YYYY" } else { "ZZZZ" };
    assert_eq!(
        join_room("bob", other.to_string(), &mut store),
        Err(Error::Persistence(Fault::RoomMissing))
    );
    assert_eq!(store, before);
}

#[test]
fn join_takes_the_first_free_seat() {
    let mut store = Store::new();
    open_room("alice", "ROOM", &mut store);
    join_with_code("bob", "ROOM", &mut store).unwrap();
    // Alice leaves: the first seat is free again
    delete_sid("alice", &mut store).unwrap();
    assert_eq!(store.rooms[0].player1_id, None);
    assert_eq!(store.rooms[0].player2_id, id("bob"));
    join_with_code("carol", "ROOM", &mut store).unwrap();
    assert_eq!(store.rooms[0].player1_id, id("carol"));
    assert_eq!(store.rooms[0].player2_id, id("bob"));
    assert!(store.is_wf());
}

#[test]
fn join_an_empty_room_takes_the_first_seat() {
    let mut store = Store::new();
    open_room("alice", "ROOM", &mut store);
    delete_sid("alice", &mut store).unwrap();
    join_with_code("bob", "ROOM", &mut store).unwrap();
    assert_eq!(store.rooms[0].player1_id, id("bob"));
    assert_eq!(store.rooms[0].player2_id, None);
}

#[test]
fn join_a_full_room_is_refused() {
    let (mut store, code) = two_seated();
    let before = store.clone();
    assert_eq!(join_room("carol", code, &mut store), Err(Error::RoomFull(None)));
    assert_eq!(store, before);
}

#[test]
fn join_a_full_room_names_the_abandoned_occupant() {
    let (mut store, code) = two_seated();
    to_delete_sid("bob", &mut store).unwrap();
    let before = store.clone();
    assert_eq!(join_room("carol", code.clone(), &mut store), Err(Error::RoomFull(id("bob"))));
    assert_eq!(store, before);
    to_delete_sid("alice", &mut store).unwrap();
    // the first seat is asked first
    assert_eq!(join_room("carol", code, &mut store), Err(Error::RoomFull(id("alice"))));
}

#[test]
fn join_beside_an_abandoned_player_takes_the_free_seat() {
    let mut store = Store::new();
    open_room("alice", "ROOM", &mut store);
    to_delete_sid("alice", &mut store).unwrap();
    assert_eq!(join_with_code("bob", "ROOM", &mut store), Ok(()));
    assert_eq!(store.rooms[0].player1_id, id("alice"));
    assert_eq!(store.rooms[0].player2_id, id("bob"));
}

#[test]
fn join_again_is_refused() {
    let (mut store, code) = two_seated();
    let before = store.clone();
    assert_eq!(join_room("alice", code.clone(), &mut store), Err(Error::AlreadyInRoom));
    assert_eq!(join_room("bob", code.clone(), &mut store), Err(Error::AlreadyInRoom));
    assert_eq!(store, before);
    start("alice", code.clone(), &mut store).unwrap();
    assert_eq!(join_room("bob", code, &mut store), Err(Error::AlreadyInRoom));
}

#[test]
fn join_moves_a_player_out_of_its_old_room() {
    let mut store = Store::new();
    open_room("alice", "AAAA", &mut store);
    open_room("bob", "BBBB", &mut store);
    add_board("bob", fleet(), &mut store).unwrap();
    join_with_code("bob", "AAAA", &mut store).unwrap();
    assert_eq!(
        store.rooms,
        vec![
            Room { code: "AAAA".to_string(), player1_id: id("alice"), player2_id: id("bob"), stat: Status::Waiting },
            Room { code: "BBBB".to_string(), player1_id: None, player2_id: None, stat: Status::Waiting },
        ]
    );
    // the old record, board included, is gone
    assert_eq!(
        store.players,
        vec![
            Player { id: "alice".to_string(), room_code: "AAAA".to_string(), board: None, abandoned: false },
            Player { id: "bob".to_string(), room_code: "AAAA".to_string(), board: None, abandoned: false },
        ]
    );
    assert!(store.is_wf());
}

#[test]
fn rejoin_after_game_over_resets_the_room() {
    let (mut store, code) = finished();
    let seats = (store.rooms[0].player1_id.clone(), store.rooms[0].player2_id.clone());
    let players = store.players.clone();
    assert_eq!(join_room("bob", code.clone(), &mut store), Ok(()));
    assert_eq!(store.rooms[0].stat, Status::Waiting);
    assert_eq!((store.rooms[0].player1_id.clone(), store.rooms[0].player2_id.clone()), seats);
    assert_eq!(store.players, players);
    // a second rejoin meets a waiting room
    assert_eq!(join_room("alice", code, &mut store), Err(Error::AlreadyInRoom));
}

#[test]
fn stranger_cannot_join_after_game_over() {
    let (mut store, code) = finished();
    let before = store.clone();
    assert_eq!(join_room("carol", code.clone(), &mut store), Err(Error::GameOverRoom));
    assert_eq!(store, before);
    // not even into a seat that was vacated
    delete_sid("alice", &mut store).unwrap();
    assert_eq!(join_room("carol", code, &mut store), Err(Error::GameOverRoom));
}

#[test]
fn start_needs_two_seated_players() {
    let mut store = Store::new();
    let code = add_room("alice", &mut store).unwrap();
    let before = store.clone();
    assert_eq!(start("alice", code.clone(), &mut store), Err(Error::RoomNotFull));
    assert_eq!(start("carol", code, &mut store), Err(Error::RoomNotFull));
    assert_eq!(store, before);
}

#[test]
fn start_by_a_stranger_is_refused() {
    let (mut store, code) = two_seated();
    let before = store.clone();
    assert_eq!(start("carol", code, &mut store), Err(Error::NotInRoom));
    assert_eq!(store, before);
}

#[test]
fn start_in_an_unknown_room_finds_no_room() {
    let (mut store, _) = two_seated();
    assert_eq!(
        start("alice", "nope".to_string(), &mut store),
        Err(Error::Persistence(Fault::RoomMissing))
    );
}

#[test]
fn start_takes_the_code_as_it_is() {
    let mut store = Store::new();
    open_room("alice", "ROOM", &mut store);
    join_with_code("bob", "ROOM", &mut store).unwrap();
    assert_eq!(
        start("alice", "room".to_string(), &mut store),
        Err(Error::Persistence(Fault::RoomMissing))
    );
    assert_eq!(start("alice", "ROOM".to_string(), &mut store), Ok(()));
}

#[test]
fn create_room_leaves_the_old_room() {
    let (mut store, code) = two_seated();
    let second = add_room("alice", &mut store).unwrap();
    assert_ne!(second, code);
    assert_eq!(store.rooms.len(), 2);
    assert_eq!(store.rooms[0].player1_id, None);
    assert_eq!(store.rooms[0].player2_id, id("bob"));
    assert_eq!(store.rooms[1], Room { code: second.clone(), player1_id: id("alice"), player2_id: None, stat: Status::Waiting });
    assert_eq!(get_room("alice", &store), Ok(Some(second)));
    assert_eq!(get_room("bob", &store), Ok(Some(code)));
    // Alice's board went with her old record
    assert_eq!(store.players.iter().find(|p| p.id == "alice").unwrap().board, None);
    assert!(store.is_wf());
}

#[test]
fn room_of_a_player() {
    let (store, code) = two_seated();
    assert_eq!(get_room("alice", &store), Ok(Some(code.clone())));
    assert_eq!(room_if_player_exists("bob", &store), Ok(Some(code)));
    assert_eq!(get_room("carol", &store), Ok(None));
    assert_eq!(room_if_player_exists("carol", &store), Ok(None));
}

#[test]
fn upload_stores_the_board() {
    let mut store = Store::new();
    add_room("alice", &mut store).unwrap();
    let b = Board::randomize();
    assert_eq!(add_board("alice", b, &mut store), Ok(()));
    assert_eq!(store.players[0].board, Some(b));
    // a later upload supersedes it
    assert_eq!(add_board("alice", fleet(), &mut store), Ok(()));
    assert_eq!(store.players[0].board, Some(fleet()));
    // an upload for nobody changes nothing
    let before = store.clone();
    assert_eq!(add_board("carol", b, &mut store), Ok(()));
    assert_eq!(store, before);
}

#[test]
fn leave_removes_the_player_and_frees_the_seat() {
    let (mut store, code) = started();
    assert_eq!(leave_or_disconnect("alice", true, &mut store), Ok(()));
    assert_eq!(store.players.len(), 1);
    assert_eq!(store.players[0].id, "bob");
    assert_eq!(
        store.rooms,
        vec![Room { code, player1_id: None, player2_id: id("bob"), stat: Status::P2Turn }]
    );
    assert_eq!(get_room("alice", &store), Ok(None));
    assert_eq!(in_delete_sid("alice", &store), Err(Error::Persistence(Fault::PlayerMissing)));
    // the one who stayed cannot attack an empty seat
    assert_eq!(attack("bob", (0, 0), &mut store), Err(Error::RoomNotFull));
    assert!(store.is_wf());
}

#[test]
fn delete_of_an_unknown_player_changes_nothing() {
    let (mut store, _) = started();
    let before = store.clone();
    assert_eq!(delete_sid("carol", &mut store), Ok(()));
    assert_eq!(store, before);
}

#[test]
fn disconnect_flags_the_player_and_keeps_everything_else() {
    let (mut store, _) = started();
    attack("bob", (0, 0), &mut store).unwrap();
    let before = store.clone();
    assert_eq!(in_delete_sid("bob", &store), Ok(false));
    assert_eq!(leave_or_disconnect("bob", false, &mut store), Ok(()));
    assert_eq!(in_delete_sid("bob", &store), Ok(true));
    assert_eq!(in_delete_sid("alice", &store), Ok(false));
    let mut expected = before;
    expected.players[1].abandoned = true;
    assert_eq!(store, expected);
    // flagging again, or flagging nobody, changes nothing
    assert_eq!(to_delete_sid("bob", &mut store), Ok(()));
    assert_eq!(to_delete_sid("carol", &mut store), Ok(()));
    assert_eq!(store, expected);
}

#[test]
fn reconnect_scenario() {
    let (mut store, code) = started();
    attack("bob", (0, 0), &mut store).unwrap();
    attack("bob", (9, 9), &mut store).unwrap();
    attack("alice", (2, 0), &mut store).unwrap();
    let seen_before = get_game_state("bob", &code, &store).unwrap();

    leave_or_disconnect("bob", false, &mut store).unwrap();
    assert!(store.players[1].abandoned);
    assert_eq!(store.players[1].room_code, code);
    assert_eq!(store.rooms[0].player2_id, id("bob"));
    assert_eq!(store.rooms[0].stat, Status::P1Turn);

    assert_eq!(update_sid("bob", "bob-2", &mut store), Ok(()));
    assert_eq!(store.players[1].id, "bob-2");
    assert!(!store.players[1].abandoned);
    assert_eq!(store.rooms[0].player1_id, id("alice"));
    assert_eq!(store.rooms[0].player2_id, id("bob-2"));
    assert_eq!(room_if_player_exists("bob-2", &store), Ok(Some(code.clone())));
    assert_eq!(room_if_player_exists("bob", &store), Ok(None));

    assert_eq!(get_game_state("bob-2", &code, &store), Ok(seen_before));
    assert_eq!(get_game_state("bob", &code, &store), Err(Error::NotInRoom));
    // the match goes on under the new id
    attack("alice", (9, 9), &mut store).unwrap();
    assert_eq!(attack("bob-2", (0, 1), &mut store), Ok((true, None, false)));
    assert!(store.is_wf());
}

#[test]
fn resume_of_an_unknown_session_changes_nothing() {
    let (mut store, _) = started();
    let before = store.clone();
    assert_eq!(update_sid("carol", "dave", &mut store), Ok(()));
    assert_eq!(store, before);
}

#[test]
fn resume_under_the_same_id_clears_the_flag() {
    let (mut store, _) = started();
    to_delete_sid("alice", &mut store).unwrap();
    assert_eq!(update_sid("alice", "alice", &mut store), Ok(()));
    assert!(!store.players[0].abandoned);
    assert_eq!(store.rooms[0].player1_id, id("alice"));
}

#[test]
fn resume_under_a_taken_id_is_refused() {
    let (mut store, _) = started();
    let before = store.clone();
    assert_eq!(
        update_sid("alice", "bob", &mut store),
        Err(Error::Persistence(Fault::DuplicatePlayer))
    );
    assert_eq!(store, before);
}

#[test]
fn snapshot_shows_own_board_and_the_fogged_opponent() {
    let (mut store, code) = started();
    attack("bob", (8, 0), &mut store).unwrap();
    attack("bob", (8, 1), &mut store).unwrap();
    attack("bob", (0, 0), &mut store).unwrap();
    attack("bob", (5, 5), &mut store).unwrap();
    attack("alice", (0, 9), &mut store).unwrap();

    let alice_rows = strings(&[
        "hsssseeeee", OPEN, "sssseeeeee", OPEN, "ssseeeeeee", "eeeeemeeee", "ssseeeeeee", OPEN,
        "hheeeeeeee", OPEN,
    ]);
    let alice_fogged = strings(&[
        "heeeeeeeee", "emeeeeeeee", OPEN, OPEN, OPEN, "eeeeemeeee", OPEN, "mmmeeeeeee",
        "hhmeeeeeee", "mmmeeeeeee",
    ]);
    let bob_rows = strings(&[
        "ssssseeeem", OPEN, "sssseeeeee", OPEN, "ssseeeeeee", OPEN, "ssseeeeeee", OPEN,
        "sseeeeeeee", OPEN,
    ]);
    let bob_fogged = strings(&[
        "eeeeeeeeem", OPEN, OPEN, OPEN, OPEN, OPEN, OPEN, OPEN, OPEN, OPEN,
    ]);
    assert_eq!(store.rooms[0].stat, Status::P2Turn);
    assert_eq!(
        get_game_state("alice", &code, &store),
        Ok((false, alice_rows.clone(), bob_fogged, false))
    );
    assert_eq!(
        get_game_state("bob", &code, &store),
        Ok((true, bob_rows, alice_fogged, false))
    );
    // a snapshot changes nothing
    assert_eq!(store.players[0].board.unwrap().to_rows(), alice_rows);
}

#[test]
fn snapshot_reports_game_over_to_both_sides() {
    let (store, code) = finished();
    let (turn, _, _, over) = get_game_state("alice", &code, &store).unwrap();
    assert!(!turn);
    assert!(over);
    let (turn, _, theirs, over) = get_game_state("bob", &code, &store).unwrap();
    assert!(!turn);
    assert!(over);
    assert_eq!(theirs[8], "hhmeeeeeee");
}

#[test]
fn snapshot_before_the_start_gives_nobody_the_turn() {
    let (store, code) = two_seated();
    let (turn, mine, theirs, over) = get_game_state("alice", &code, &store).unwrap();
    assert!(!turn);
    assert!(!over);
    assert_eq!(mine, fleet().to_rows());
    assert_eq!(theirs, strings(&[OPEN; 10]));
}

#[test]
fn snapshot_errors() {
    let (mut store, code) = two_seated();
    assert_eq!(get_game_state("carol", &code, &store), Err(Error::NotInRoom));
    assert_eq!(
        get_game_state("alice", "nope", &store),
        Err(Error::Persistence(Fault::RoomMissing))
    );
    store.players[1].board = None;
    assert_eq!(
        get_game_state("alice", &code, &store),
        Err(Error::Persistence(Fault::BoardMissing))
    );
    assert_eq!(
        get_game_state("bob", &code, &store),
        Err(Error::Persistence(Fault::BoardMissing))
    );
    delete_sid("bob", &mut store).unwrap();
    assert_eq!(get_game_state("alice", &code, &store), Err(Error::NotInRoom));
}

#[test]
fn store_invariant_check() {
    let (store, code) = two_seated();
    assert!(store.is_wf());
    assert!(Store::new().is_wf());

    let mut twice = store.clone();
    twice.players.push(twice.players[0].clone());
    assert!(!twice.is_wf());

    let mut same_code = store.clone();
    same_code.rooms.push(Room { code: code.clone(), player1_id: None, player2_id: None, stat: Status::Waiting });
    assert!(!same_code.is_wf());

    let mut same_seat = store.clone();
    same_seat.rooms[0].player2_id = id("alice");
    assert!(!same_seat.is_wf());

    let mut ghost = store.clone();
    ghost.rooms[0].player2_id = id("carol");
    assert!(!ghost.is_wf());

    let mut elsewhere = store.clone();
    elsewhere.players[1].room_code = "ELSE".to_string();
    assert!(!elsewhere.is_wf());

    let mut unseated = store.clone();
    unseated.rooms[0].player2_id = None;
    assert!(unseated.is_wf());
}

#[test]
fn lookups_by_id_and_code() {
    let (store, code) = two_seated();
    assert_eq!(store.find_player(&"alice".to_string()), Some(0));
    assert_eq!(store.find_player(&"bob".to_string()), Some(1));
    assert_eq!(store.find_player(&"carol".to_string()), None);
    assert_eq!(store.find_room(&code), Some(0));
    assert_eq!(store.find_room(&"nope".to_string()), None);
    assert!(store.is_member(&"bob".to_string(), &code));
    assert!(!store.is_member(&"bob".to_string(), &"nope".to_string()));
    assert!(!store.is_member(&"carol".to_string(), &code));
}

#[test]
fn rendezvous_stores_every_board_when_all_answered() {
    let mut store = Store::new();
    let code = add_room("alice", &mut store).unwrap();
    join_room("bob", code, &mut store).unwrap();
    let other = Board::randomize();
    let replies = vec![
        ("alice".to_string(), Some(fleet())),
        ("bob".to_string(), Some(other)),
    ];
    assert!(collect_boards(&replies, &mut store));
    assert_eq!(store.players[0].board, Some(fleet()));
    assert_eq!(store.players[1].board, Some(other));
    assert!(collect_boards(&Vec::new(), &mut store));
}

#[test]
fn rendezvous_is_incomplete_when_an_answer_is_missing() {
    let mut store = Store::new();
    let code = add_room("alice", &mut store).unwrap();
    join_room("bob", code, &mut store).unwrap();
    let replies = vec![("alice".to_string(), None), ("bob".to_string(), Some(fleet()))];
    assert!(!collect_boards(&replies, &mut store));
    // the board that did arrive is stored all the same
    assert_eq!(store.players[0].board, None);
    assert_eq!(store.players[1].board, Some(fleet()));
}

#[test]
fn rendezvous_turns_away_unknown_cell_codes() {
    let mut store = Store::new();
    let code = add_room("alice", &mut store).unwrap();
    join_room("bob", code, &mut store).unwrap();
    let mut odd = fleet();
    odd.put(9, 9, 'x');
    let replies = vec![("alice".to_string(), Some(fleet())), ("bob".to_string(), Some(odd))];
    assert!(!collect_boards(&replies, &mut store));
    assert_eq!(store.players[0].board, Some(fleet()));
    assert_eq!(store.players[1].board, None);
}

#[test]
fn rendezvous_lets_the_later_answer_of_a_member_win() {
    let mut store = Store::new();
    add_room("alice", &mut store).unwrap();
    let replies = vec![
        ("alice".to_string(), Some(Board::empty())),
        ("alice".to_string(), Some(fleet())),
        ("nobody".to_string(), Some(fleet())),
    ];
    assert!(collect_boards(&replies, &mut store));
    assert_eq!(store.players.len(), 1);
    assert_eq!(store.players[0].board, Some(fleet()));
}

#[test]
fn room_is_opened_under_the_first_free_candidate() {
    let mut store = Store::new();
    open_room("alice", "AAAA", &mut store);
    open_room("bob", "BBBB", &mut store);
    let candidates = strings(&["BBBB", "AAAA", "CCCC", "DDDD"]);
    assert_eq!(add_room_from("carol", &candidates, &mut store), Ok("CCCC".to_string()));
    assert_eq!(
        store.rooms[2],
        Room { code: "CCCC".to_string(), player1_id: id("carol"), player2_id: None, stat: Status::Waiting }
    );
    assert_eq!(
        store.players[2],
        Player { id: "carol".to_string(), room_code: "CCCC".to_string(), board: None, abandoned: false }
    );
    assert!(store.is_wf());
}

#[test]
fn room_of_the_requester_still_takes_its_code() {
    // the player leaves its old room, but the room and its code remain
    let mut store = Store::new();
    open_room("alice", "AAAA", &mut store);
    let candidates = strings(&["AAAA", "BBBB"]);
    assert_eq!(add_room_from("alice", &candidates, &mut store), Ok("BBBB".to_string()));
    assert_eq!(store.rooms.len(), 2);
    assert_eq!(store.rooms[0].player1_id, None);
    assert_eq!(store.rooms[1].player1_id, id("alice"));
    assert_eq!(store.players.len(), 1);
    assert_eq!(store.players[0].room_code, "BBBB");
}

#[test]
fn no_room_is_opened_when_every_candidate_is_taken() {
    let mut store = Store::new();
    open_room("alice", "AAAA", &mut store);
    open_room("bob", "BBBB", &mut store);
    add_board("alice", fleet(), &mut store).unwrap();
    let candidates = strings(&["AAAA", "BBBB", "AAAA"]);
    assert_eq!(
        add_room_from("alice", &candidates, &mut store),
        Err(Error::CodeGenerationLimitReached)
    );
    // the requester has left all the same
    assert_eq!(store.players.len(), 1);
    assert_eq!(store.players[0].id, "bob");
    assert_eq!(store.rooms.len(), 2);
    assert_eq!(store.rooms[0].player1_id, None);
    assert_eq!(store.rooms[1].player1_id, id("bob"));
    assert_eq!(add_room_from("carol", &Vec::new(), &mut store), Err(Error::CodeGenerationLimitReached));
    assert!(store.is_wf());
}

#[test]
fn join_with_the_code_that_create_returned() {
    for _ in 0..50 {
        let mut store = Store::new();
        let code = add_room("alice", &mut store).unwrap();
        assert_eq!(join_room("bob", code.clone(), &mut store), Ok(()));
        assert_eq!(store.rooms[0].code, code);
        assert_eq!(store.rooms[0].player2_id, id("bob"));
    }
}

#[test]
fn join_matches_other_texts_in_upper_case() {
    let mut store = Store::new();
    open_room("alice", "STRASSE", &mut store);
    open_room("carol", "A1", &mut store);
    assert_eq!(join_room("bob", "straße".to_string(), &mut store), Ok(()));
    assert_eq!(store.rooms[0].player2_id, id("bob"));
    assert_eq!(join_room("dave", "a1".to_string(), &mut store), Ok(()));
    assert_eq!(store.rooms[1].player2_id, id("dave"));
}

#[test]
fn rendezvous_starts_only_with_every_expected_answer() {
    let mut store = Store::new();
    let code = add_room("alice", &mut store).unwrap();
    join_room("bob", code, &mut store).unwrap();
    let both = vec![("alice".to_string(), Some(fleet())), ("bob".to_string(), Some(fleet()))];
    let mut s = store.clone();
    assert!(rendezvous_complete(&both, 2, &mut s));
    assert_eq!(s.players[0].board, Some(fleet()));
    assert_eq!(s.players[1].board, Some(fleet()));
    // one answer short of the members asked
    let mut s = store.clone();
    assert!(!rendezvous_complete(&both[..1].to_vec(), 2, &mut s));
    assert_eq!(s.players[0].board, Some(fleet()));
    assert_eq!(s.players[1].board, None);
    // more answers than members asked
    let mut s = store.clone();
    assert!(!rendezvous_complete(&both, 1, &mut s));
    // an answer without a board
    let failed = vec![("alice".to_string(), Some(fleet())), ("bob".to_string(), None)];
    let mut s = store.clone();
    assert!(!rendezvous_complete(&failed, 2, &mut s));
    assert_eq!(s.players[0].board, Some(fleet()));
    // an answer with an unknown cell code
    let mut odd = fleet();
    odd.put(0, 9, '?');
    let bad = vec![("alice".to_string(), Some(odd)), ("bob".to_string(), Some(fleet()))];
    let mut s = store.clone();
    assert!(!rendezvous_complete(&bad, 2, &mut s));
    assert_eq!(s.players[0].board, None);
    // nobody asked, nobody answered
    let mut s = store.clone();
    assert!(rendezvous_complete(&Vec::new(), 0, &mut s));
    assert!(!rendezvous_complete(&Vec::new(), 2, &mut s));
    assert_eq!(s, store);
}
