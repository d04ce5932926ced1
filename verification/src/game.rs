//! Rooms, players and the operations that sequence a match.

use vstd::prelude::*;
use crate::board::{Board, Grid};
use crate::code::{
    all_taken, draw_codes, first_free_at, first_free_code, holds_room_code, is_code_text,
    is_room_code, CODE_ATTEMPTS,
};
use crate::consistency::{
    lemma_evicted_consistent, lemma_opened_consistent, lemma_player_update_consistent,
    lemma_renamed_consistent, lemma_seated_consistent, lemma_with_status_consistent,
};
use crate::rules::{
    abandoned_flag, attack_outcome, board_in_room, departed, evicted, flagged_abandoned,
    full_refusal, join_outcome, matched_code, opened, renamed, reseated, resume_outcome, room_of,
    seated_at, snapshot_of, start_outcome, vacated, with_board, with_board_at, with_status,
};
use crate::store::{has_player, has_room, room_at, text_of, Player, Room, Store};
use crate::sunk::sunk_report;
use crate::text::to_uppercase;
use crate::wire::rows_grid;

verus! {

/// Number of characters in a room code.
pub const ROOM_CODE_LENGTH: usize = 4;

/// A record that an operation needed and the store does not hold.
#[derive(Debug, Clone, Copy, PartialEq, Eq, Structural)]
pub enum Fault {
    /// No room carries the code.
    RoomMissing,
    /// No player carries the session id.
    PlayerMissing,
    /// The player has not uploaded a board.
    BoardMissing,
    /// Another player already carries the session id.
    DuplicatePlayer,
}

/// Why an operation was refused.
#[derive(Debug, Clone, PartialEq, Eq)]
pub enum Error {
    /// Both seats are taken; the payload names an abandoned occupant whose
    /// session could be resumed instead.
    RoomFull(Option<String>),
    /// The action needs two seated players and the requester's turn.
    RoomNotFull,
    /// A newcomer tried to join a finished room.
    GameOverRoom,
    /// The requester already sits in the room.
    AlreadyInRoom,
    /// The requester does not sit in the room.
    NotInRoom,
    /// The target square does not exist or was attacked before.
    InvalidMove,
    /// No unused room code was drawn within the attempt limit.
    CodeGenerationLimitReached,
    /// The store lacks a record or refuses a write.
    Persistence(Fault),
}

/// The model of an [`Error`]: session ids are sequences of characters.
pub enum Refusal {
    RoomFull(Option<Seq<char>>),
    RoomNotFull,
    GameOverRoom,
    AlreadyInRoom,
    NotInRoom,
    InvalidMove,
    CodeGenerationLimitReached,
    Persistence(Fault),
}

impl View for Error {
    type V = Refusal;

    open spec fn view(&self) -> Refusal {
        match *self {
            Error::RoomFull(who) => Refusal::RoomFull(text_of(who)),
            Error::RoomNotFull => Refusal::RoomNotFull,
            Error::GameOverRoom => Refusal::GameOverRoom,
            Error::AlreadyInRoom => Refusal::AlreadyInRoom,
            Error::NotInRoom => Refusal::NotInRoom,
            Error::InvalidMove => Refusal::InvalidMove,
            Error::CodeGenerationLimitReached => Refusal::CodeGenerationLimitReached,
            Error::Persistence(fault) => Refusal::Persistence(fault),
        }
    }
}

/// Where a room stands in the life of a match.
#[derive(Debug, Clone, Copy, PartialEq, Eq, Structural)]
pub enum Status {
    /// Open for players; no match is running.
    Waiting,
    /// The player in the first seat may attack.
    P1Turn,
    /// The player in the second seat may attack.
    P2Turn,
    /// The match has ended.
    GameOver,
}

/// The seat names the player.
fn names(seat: &Option<String>, id: &String) -> (r: bool)
    ensures
        r == (text_of(*seat) == Some(id@)),
{
    match seat {
        Some(p) => *p == *id,
        None => false,
    }
}

/// Removes the player's record outright and vacates its seats.
pub fn delete_sid(sid: &str, store: &mut Store) -> (r: Result<(), Error>)
    requires
        old(store).wf(),
    ensures
        r is Ok,
        final(store)@ == evicted(old(store)@, sid@),
        final(store).wf(),
{
    let id = sid.to_owned();
    let ghost before = store@;
    match store.find_player(&id) {
        Some(k) => {
            store.players.remove(k);
        },
        None => {},
    }
    assert(store@.players =~= evicted(before, id@).players);
    let mut n: usize = 0;
    while n < store.rooms.len()
        invariant
            n <= store.rooms.len(),
            store.rooms.len() == before.rooms.len(),
            store@.players == evicted(before, id@).players,
            forall|j: int|
                0 <= j < n ==> (#[trigger] store@.rooms[j]) == vacated(before.rooms[j], id@),
            forall|j: int|
                n <= j < store.rooms.len() ==> (#[trigger] store@.rooms[j]) == before.rooms[j],
        decreases store.rooms.len() - n,
    {
        let ghost rooms_before = store@.rooms;
        if names(&store.rooms[n].player1_id, &id) {
            store.rooms[n].player1_id = None;
        }
        if names(&store.rooms[n].player2_id, &id) {
            store.rooms[n].player2_id = None;
        }
        proof {
            assert forall|j: int| 0 <= j < store.rooms.len() && j != n implies (
            #[trigger] store@.rooms[j]) == rooms_before[j] by {}
            assert(rooms_before[n as int] == before.rooms[n as int]);
            assert(store@.rooms[n as int].player1_id
                == vacated(before.rooms[n as int], id@).player1_id);
            assert(store@.rooms[n as int].player2_id
                == vacated(before.rooms[n as int], id@).player2_id);
        }
        n += 1;
    }
    proof {
        assert(store@.rooms =~= evicted(before, id@).rooms);
        lemma_evicted_consistent(before, id@);
    }
    Ok(())
}

/// Flags the player as abandoned: its connection dropped, its room and board
/// stay for the session to resume.
pub fn to_delete_sid(sid: &str, store: &mut Store) -> (r: Result<(), Error>)
    requires
        old(store).wf(),
    ensures
        r is Ok,
        final(store)@ == flagged_abandoned(old(store)@, sid@),
        final(store).wf(),
{
    let id = sid.to_owned();
    let ghost before = store@;
    match store.find_player(&id) {
        Some(k) => {
            store.players[k].abandoned = true;
            proof {
                assert(store@.players =~= flagged_abandoned(before, id@).players);
                assert(store@.rooms =~= before.rooms);
                lemma_player_update_consistent(before, k as int, store@.players[k as int]);
            }
        },
        None => {
            assert(store@.players =~= before.players);
            assert(store@.rooms =~= before.rooms);
        },
    }
    Ok(())
}

/// Whether the player is flagged as abandoned.
pub fn in_delete_sid(sid: &str, store: &Store) -> (r: Result<bool, Error>)
    requires
        store.wf(),
    ensures
        match abandoned_flag(store@, sid@) {
            Ok(flag) => r == Ok::<bool, Error>(flag),
            Err(e) => r matches Err(x) && x@ == e,
        },
{
    let id = sid.to_owned();
    match store.find_player(&id) {
        Some(k) => Ok(store.players[k].abandoned),
        None => Err(Error::Persistence(Fault::PlayerMissing)),
    }
}

/// Hands the record of the session `oldsid` to the session `newsid` and
/// clears its abandoned flag; the seats follow. Nothing happens if no player
/// carries `oldsid`; the request is refused if another player carries
/// `newsid`.
pub fn update_sid(oldsid: &str, newsid: &str, store: &mut Store) -> (r: Result<(), Error>)
    requires
        old(store).wf(),
    ensures
        final(store).wf(),
        match resume_outcome(old(store)@, oldsid@, newsid@) {
            Ok(t) => r is Ok && final(store)@ == t,
            Err(e) => r matches Err(x) && x@ == e && final(store)@ == old(store)@,
        },
{
    let from = oldsid.to_owned();
    let to = newsid.to_owned();
    let ghost before = store@;
    let k = match store.find_player(&from) {
        Some(k) => k,
        None => {
            assert(store@.players =~= before.players);
            assert(store@.rooms =~= before.rooms);
            return Ok(());
        },
    };
    if from != to && store.find_player(&to).is_some() {
        assert(store@.players =~= before.players);
        assert(store@.rooms =~= before.rooms);
        return Err(Error::Persistence(Fault::DuplicatePlayer));
    }
    store.players[k].id = to.clone();
    store.players[k].abandoned = false;
    assert(store@.players =~= renamed(before, from@, to@).players);
    let mut n: usize = 0;
    while n < store.rooms.len()
        invariant
            n <= store.rooms.len(),
            store.rooms.len() == before.rooms.len(),
            store@.players == renamed(before, from@, to@).players,
            forall|j: int|
                0 <= j < n
                    ==> (#[trigger] store@.rooms[j]) == reseated(before.rooms[j], from@, to@),
            forall|j: int|
                n <= j < store.rooms.len() ==> (#[trigger] store@.rooms[j]) == before.rooms[j],
        decreases store.rooms.len() - n,
    {
        let ghost rooms_before = store@.rooms;
        if names(&store.rooms[n].player1_id, &from) {
            store.rooms[n].player1_id = Some(to.clone());
        }
        if names(&store.rooms[n].player2_id, &from) {
            store.rooms[n].player2_id = Some(to.clone());
        }
        proof {
            assert forall|j: int| 0 <= j < store.rooms.len() && j != n implies (
            #[trigger] store@.rooms[j]) == rooms_before[j] by {}
            assert(rooms_before[n as int] == before.rooms[n as int]);
            assert(store@.rooms[n as int].player1_id
                == reseated(before.rooms[n as int], from@, to@).player1_id);
            assert(store@.rooms[n as int].player2_id
                == reseated(before.rooms[n as int], from@, to@).player2_id);
        }
        n += 1;
    }
    proof {
        assert(store@.rooms =~= renamed(before, from@, to@).rooms);
        lemma_renamed_consistent(before, from@, to@);
    }
    Ok(())
}

/// Stores the board for the player.
pub fn add_board(sid: &str, board: Board, store: &mut Store) -> (r: Result<(), Error>)
    requires
        old(store).wf(),
    ensures
        r is Ok,
        final(store)@ == with_board(old(store)@, sid@, board@),
        final(store).wf(),
{
    let id = sid.to_owned();
    let ghost before = store@;
    match store.find_player(&id) {
        Some(k) => {
            store.players[k].board = Some(board);
            proof {
                assert(store@.players =~= with_board(before, id@, board@).players);
                assert(store@.rooms =~= before.rooms);
                lemma_player_update_consistent(before, k as int, store@.players[k as int]);
            }
        },
        None => {
            assert(store@.players =~= before.players);
            assert(store@.rooms =~= before.rooms);
        },
    }
    Ok(())
}

/// The code of the room that the player joined, if the player exists.
pub fn get_room(sid: &str, store: &Store) -> (r: Result<Option<String>, Error>)
    requires
        store.wf(),
    ensures
        r matches Ok(code) && text_of(code) == room_of(store@, sid@),
{
    let id = sid.to_owned();
    match store.find_player(&id) {
        Some(k) => Ok(Some(store.players[k].room_code.clone())),
        None => Ok(None),
    }
}

/// The code of the room that the player joined, if the player exists.
pub fn room_if_player_exists(sid: &str, store: &Store) -> (r: Result<Option<String>, Error>)
    requires
        store.wf(),
    ensures
        r matches Ok(code) && text_of(code) == room_of(store@, sid@),
{
    get_room(sid, store)
}

/// Who sits opposite the attacker and which status hands over the turn, if
/// the room lets `id` attack.
fn opponent(room: &Room, id: &String) -> (r: Option<(String, Status)>)
    ensures
        match r {
            Some((other, next)) => room@.player1_id is Some && room@.player2_id is Some && (
            if room@.player1_id->Some_0 == id@ && room@.stat == Status::P1Turn {
                other@ == room@.player2_id->Some_0 && next == Status::P2Turn
            } else {
                room@.player2_id->Some_0 == id@ && room@.stat == Status::P2Turn && other@
                    == room@.player1_id->Some_0 && next == Status::P1Turn
            }),
            None => !(room@.player1_id is Some && room@.player2_id is Some && ((
            room@.player1_id->Some_0 == id@ && room@.stat == Status::P1Turn) || (
            room@.player2_id->Some_0 == id@ && room@.stat == Status::P2Turn))),
        },
{
    match &room.player1_id {
        Some(p1) => match &room.player2_id {
            Some(p2) => {
                if *p1 == *id && room.stat == Status::P1Turn {
                    Some((p2.clone(), Status::P2Turn))
                } else if *p2 == *id && room.stat == Status::P2Turn {
                    Some((p1.clone(), Status::P1Turn))
                } else {
                    None
                }
            },
            None => None,
        },
        None => None,
    }
}

/// Resolves an attack by the player `sid` on the square `at` of the
/// opponent's board. Reports whether the shot hit, the bounding box of the
/// ship if the shot sank it, and whether the game just ended.
pub fn attack(sid: &str, at: (usize, usize), store: &mut Store) -> (r: Result<
    (bool, Option<[(usize, usize); 2]>, bool),
    Error,
>)
    requires
        old(store).wf(),
    ensures
        final(store).wf(),
        match attack_outcome(old(store)@, sid@, (at.0 as int, at.1 as int)) {
            Ok(out) => r matches Ok(v) && v.0 == out.hit && v.2 == out.game_over && final(store)@
                == out.store && (out.hit ==> sunk_report(
                out.board,
                (at.0 as int, at.1 as int),
                v.1,
            )) && (!out.hit ==> v.1 is None),
            Err(e) => r matches Err(x) && x@ == e && final(store)@ == old(store)@,
        },
{
    let id = sid.to_owned();
    let ghost before = store@;
    proof {
        assert(store@.players =~= before.players);
        assert(store@.rooms =~= before.rooms);
    }
    let me = match store.find_player(&id) {
        Some(k) => k,
        None => {
            return Err(Error::Persistence(Fault::PlayerMissing));
        },
    };
    let k = match store.find_room(&store.players[me].room_code) {
        Some(k) => k,
        None => {
            return Err(Error::Persistence(Fault::RoomMissing));
        },
    };
    let (other, next) = match opponent(&store.rooms[k], &id) {
        Some(pair) => pair,
        None => {
            return Err(Error::RoomNotFull);
        },
    };
    let d = match store.find_player(&other) {
        Some(d) => d,
        None => {
            return Err(Error::Persistence(Fault::PlayerMissing));
        },
    };
    let mut board = match store.players[d].board {
        Some(b) => b,
        None => {
            return Err(Error::Persistence(Fault::BoardMissing));
        },
    };
    let hit = match board.apply_attack(at) {
        Ok(hit) => hit,
        Err(_) => {
            return Err(Error::InvalidMove);
        },
    };
    store.players[d].board = Some(board);
    let over = board.is_game_over();
    if over {
        store.rooms[k].stat = Status::GameOver;
    } else if !hit {
        store.rooms[k].stat = next;
    }
    let sunk = if hit {
        board.has_sunk(at)
    } else {
        None
    };
    proof {
        let out = attack_outcome(before, id@, (at.0 as int, at.1 as int))->Ok_0;
        assert(store@.players =~= out.store.players);
        assert(store@.rooms =~= out.store.rooms);
        lemma_player_update_consistent(before, d as int, out.store.players[d as int]);
        lemma_with_status_consistent(
            with_board_at(before, d as int, out.board),
            k as int,
            out.store.rooms[k as int].stat,
        );
    }
    Ok((hit, sunk, over))
}

/// The refusal that a newcomer meets at a room with both seats taken.
fn full_room_error(store: &Store, k: usize) -> (e: Error)
    requires
        store.wf(),
        k < store.rooms.len(),
        store@.rooms[k as int].player1_id is Some,
        store@.rooms[k as int].player2_id is Some,
    ensures
        e@ == full_refusal(
            store@,
            store@.rooms[k as int].player1_id->Some_0,
            store@.rooms[k as int].player2_id->Some_0,
        ),
{
    match &store.rooms[k].player1_id {
        Some(p1) => match &store.rooms[k].player2_id {
            Some(p2) => {
                match store.find_player(p1) {
                    None => Error::Persistence(Fault::PlayerMissing),
                    Some(a) => {
                        if store.players[a].abandoned {
                            Error::RoomFull(Some(p1.clone()))
                        } else {
                            match store.find_player(p2) {
                                None => Error::Persistence(Fault::PlayerMissing),
                                Some(b) => {
                                    if store.players[b].abandoned {
                                        Error::RoomFull(Some(p2.clone()))
                                    } else {
                                        Error::RoomFull(None)
                                    }
                                },
                            }
                        }
                    },
                }
            },
            None => Error::RoomFull(None),
        },
        None => Error::RoomFull(None),
    }
}

/// Seats the player `sid` in the room whose code is exactly `code`.
pub fn join_with_code(sid: &str, code: &str, store: &mut Store) -> (r: Result<(), Error>)
    requires
        old(store).wf(),
    ensures
        final(store).wf(),
        match join_outcome(old(store)@, sid@, code@) {
            Ok(t) => r is Ok && final(store)@ == t,
            Err(e) => r matches Err(x) && x@ == e && final(store)@ == old(store)@,
        },
{
    let id = sid.to_owned();
    let code = code.to_owned();
    let ghost before = store@;
    proof {
        assert(store@.players =~= before.players);
        assert(store@.rooms =~= before.rooms);
    }
    let k = match store.find_room(&code) {
        Some(k) => k,
        None => {
            return Err(Error::Persistence(Fault::RoomMissing));
        },
    };
    let first = names(&store.rooms[k].player1_id, &id);
    let second = names(&store.rooms[k].player2_id, &id);
    if first || second {
        if store.rooms[k].stat == Status::GameOver {
            store.rooms[k].stat = Status::Waiting;
            proof {
                assert(store@.rooms =~= with_status(before, k as int, Status::Waiting).rooms);
                assert(store@.players =~= before.players);
                lemma_with_status_consistent(before, k as int, Status::Waiting);
            }
            return Ok(());
        }
        return Err(Error::AlreadyInRoom);
    }
    if store.rooms[k].stat == Status::GameOver {
        return Err(Error::GameOverRoom);
    }
    if store.rooms[k].player1_id.is_some() && store.rooms[k].player2_id.is_some() {
        return Err(full_room_error(store, k));
    }
    let first_free = store.rooms[k].player1_id.is_none();
    let _ = delete_sid(sid, store);
    let ghost cleared = store@;
    proof {
        assert(cleared.rooms.len() == before.rooms.len());
        assert(cleared.rooms[k as int] == vacated(before.rooms[k as int], id@));
        assert(cleared.rooms[k as int] == before.rooms[k as int]);
    }
    store.players.push(
        Player { id: id.clone(), room_code: code.clone(), board: None, abandoned: false },
    );
    if first_free {
        store.rooms[k].player1_id = Some(id);
    } else {
        store.rooms[k].player2_id = Some(id);
    }
    proof {
        let t = seated_at(cleared, k as int, id@);
        assert(store@.players =~= t.players);
        assert(store@.rooms =~= t.rooms);
        lemma_seated_consistent(cleared, k as int, id@);
    }
    Ok(())
}

/// Seats the player `sid` in the room `code`. A text in the form of a room
/// code is matched as it is; any other text is matched in upper case.
pub fn join_room(sid: &str, code: String, store: &mut Store) -> (r: Result<(), Error>)
    requires
        old(store).wf(),
    ensures
        final(store).wf(),
        match join_outcome(old(store)@, sid@, matched_code(code@)) {
            Ok(t) => r is Ok && final(store)@ == t,
            Err(e) => r matches Err(x) && x@ == e && final(store)@ == old(store)@,
        },
{
    if is_code_text(code.as_str()) {
        join_with_code(sid, code.as_str(), store)
    } else {
        let upper = to_uppercase(code.as_str());
        join_with_code(sid, upper.as_str(), store)
    }
}

/// Starts the match in the room `code` at the request of `sid`.
pub fn start(sid: &str, code: String, store: &mut Store) -> (r: Result<(), Error>)
    requires
        old(store).wf(),
    ensures
        final(store).wf(),
        match start_outcome(old(store)@, sid@, code@) {
            Ok(t) => r is Ok && final(store)@ == t,
            Err(e) => r matches Err(x) && x@ == e && final(store)@ == old(store)@,
        },
{
    let id = sid.to_owned();
    let ghost before = store@;
    proof {
        assert(store@.players =~= before.players);
        assert(store@.rooms =~= before.rooms);
    }
    let k = match store.find_room(&code) {
        Some(k) => k,
        None => {
            return Err(Error::Persistence(Fault::RoomMissing));
        },
    };
    if !(store.rooms[k].player1_id.is_some() && store.rooms[k].player2_id.is_some()) {
        return Err(Error::RoomNotFull);
    }
    let status = if names(&store.rooms[k].player1_id, &id) {
        Status::P2Turn
    } else if names(&store.rooms[k].player2_id, &id) {
        Status::P1Turn
    } else {
        return Err(Error::NotInRoom);
    };
    store.rooms[k].stat = status;
    proof {
        assert(store@.rooms =~= with_status(before, k as int, status).rooms);
        assert(store@.players =~= before.players);
        lemma_with_status_consistent(before, k as int, status);
    }
    Ok(())
}

/// The board that the player holds as a member of the room.
fn fetch_board(store: &Store, id: &String, code: &String) -> (r: Result<Board, Error>)
    requires
        store.wf(),
    ensures
        match board_in_room(store@, id@, code@) {
            Ok(g) => r matches Ok(b) && b@ == g,
            Err(e) => r matches Err(x) && x@ == e,
        },
{
    let k = match store.find_player(id) {
        Some(k) => k,
        None => {
            return Err(Error::Persistence(Fault::PlayerMissing));
        },
    };
    if store.players[k].room_code != *code {
        return Err(Error::Persistence(Fault::PlayerMissing));
    }
    match store.players[k].board {
        Some(b) => Ok(b),
        None => Err(Error::Persistence(Fault::BoardMissing)),
    }
}

/// What the player `sid` sees of the match in the room `room`: whether it
/// may attack, its own board, the opponent's board as far as it may be
/// shown, and whether the game is over. Boards come as rows of cell codes.
pub fn get_game_state(sid: &str, room: &str, store: &Store) -> (r: Result<
    (bool, Vec<String>, Vec<String>, bool),
    Error,
>)
    requires
        store.wf(),
    ensures
        match snapshot_of(store@, sid@, room@) {
            Ok(v) => r matches Ok(t) && t.0 == v.my_turn && rows_grid(t.1@) == v.mine && rows_grid(
                t.2@,
            ) == v.theirs && t.3 == v.game_over,
            Err(e) => r matches Err(x) && x@ == e,
        },
{
    let id = sid.to_owned();
    let code = room.to_owned();
    let k = match store.find_room(&code) {
        Some(k) => k,
        None => {
            return Err(Error::Persistence(Fault::RoomMissing));
        },
    };
    let first = names(&store.rooms[k].player1_id, &id);
    let second = names(&store.rooms[k].player2_id, &id);
    let other = match &store.rooms[k].player1_id {
        Some(p1) => match &store.rooms[k].player2_id {
            Some(p2) => {
                if first {
                    p2.clone()
                } else if second {
                    p1.clone()
                } else {
                    return Err(Error::NotInRoom);
                }
            },
            None => {
                return Err(Error::NotInRoom);
            },
        },
        None => {
            return Err(Error::NotInRoom);
        },
    };
    let turn = (store.rooms[k].stat == Status::P1Turn && first) || (store.rooms[k].stat
        == Status::P2Turn && second);
    let mine = match fetch_board(store, &id, &code) {
        Ok(b) => b,
        Err(e) => {
            return Err(e);
        },
    };
    let theirs = match fetch_board(store, &other, &code) {
        Ok(b) => b,
        Err(e) => {
            return Err(e);
        },
    };
    let game_over = mine.is_game_over() || theirs.is_game_over();
    let shown = theirs.mark_redundant().conceal();
    Ok((turn, mine.to_rows(), shown.to_rows(), game_over))
}

/// Opens a room under the code `code` with the player `sid` in its first
/// seat.
pub fn open_room(sid: &str, code: &str, store: &mut Store)
    requires
        old(store).wf(),
        !has_player(old(store)@, sid@),
        !has_room(old(store)@, code@),
    ensures
        final(store).wf(),
        final(store)@ == opened(old(store)@, sid@, code@),
{
    let ghost before = store@;
    store.players.push(
        Player { id: sid.to_owned(), room_code: code.to_owned(), board: None, abandoned: false },
    );
    store.rooms.push(
        Room {
            code: code.to_owned(),
            player1_id: Some(sid.to_owned()),
            player2_id: None,
            stat: Status::Waiting,
        },
    );
    proof {
        assert(store@.players =~= opened(before, sid@, code@).players);
        assert(store@.rooms =~= opened(before, sid@, code@).rooms);
        lemma_opened_consistent(before, sid@, code@);
    }
}

/// Creates a room for the player `sid` under the first of the candidate
/// codes that no room carries, and returns that code. The player first
/// leaves whatever it had before. If every candidate is taken the player has
/// left and no room is created.
pub fn add_room_from(sid: &str, candidates: &Vec<String>, store: &mut Store) -> (r: Result<
    String,
    Error,
>)
    requires
        old(store).wf(),
    ensures
        final(store).wf(),
        match r {
            Ok(code) => (exists|k: int| #[trigger]
                first_free_at(old(store)@, candidates@, k) && code@ == candidates@[k]@)
                && final(store)@ == opened(evicted(old(store)@, sid@), sid@, code@),
            Err(e) => e@ == Refusal::CodeGenerationLimitReached && all_taken(
                old(store)@,
                candidates@,
            ) && final(store)@ == evicted(old(store)@, sid@),
        },
{
    let ghost before = store@;
    let _ = delete_sid(sid, store);
    let ghost cleared = store@;
    proof {
        assert forall|c: Seq<char>| has_room(cleared, c) == has_room(before, c) by {
            if has_room(cleared, c) {
                let k = room_at(cleared, c);
                assert(before.rooms[k].code == c);
            }
            if has_room(before, c) {
                let k = room_at(before, c);
                assert(cleared.rooms[k].code == c);
            }
        }
    }
    let k = match first_free_code(candidates, store) {
        Ok(k) => k,
        Err(e) => {
            return Err(Error::CodeGenerationLimitReached);
        },
    };
    let code = candidates[k].clone();
    open_room(sid, code.as_str(), store);
    assert(first_free_at(before, candidates@, k as int) && code@ == candidates@[k as int]@);
    Ok(code)
}

/// Creates a room for the player `sid` under a freshly allocated code and
/// returns the code. The player first leaves whatever it had before, then
/// `CODE_ATTEMPTS` candidates are drawn and the first free one is taken. If
/// every candidate is taken the player has left and no room is created; this
/// cannot happen while no room carries a code of the proper form.
pub fn add_room(sid: &str, store: &mut Store) -> (r: Result<String, Error>)
    requires
        old(store).wf(),
    ensures
        final(store).wf(),
        r matches Ok(code) ==> is_room_code(code@) && !has_room(old(store)@, code@) && final(store)@
            == opened(evicted(old(store)@, sid@), sid@, code@),
        r matches Err(e) ==> e@ == Refusal::CodeGenerationLimitReached && final(store)@ == evicted(
            old(store)@,
            sid@,
        ),
        !holds_room_code(old(store)@) ==> r is Ok,
{
    let candidates = draw_codes(CODE_ATTEMPTS);
    let r = add_room_from(sid, &candidates, store);
    proof {
        if r is Err {
            // the first candidate is taken by a room, and it has the proper form
            let c = candidates@[0]@;
            assert(has_room(old(store)@, c));
            let j = choose|j: int|
                0 <= j < old(store)@.rooms.len() && (#[trigger] old(store)@.rooms[j]).code == c;
            assert(is_room_code(old(store)@.rooms[j].code));
        }
    }
    r
}

/// Takes the player out of play. An explicit leave (`hard`) removes the
/// record outright; a dropped connection only flags it as abandoned, so that
/// the session can come back to its room and board.
pub fn leave_or_disconnect(sid: &str, hard: bool, store: &mut Store) -> (r: Result<(), Error>)
    requires
        old(store).wf(),
    ensures
        r is Ok,
        final(store)@ == departed(old(store)@, sid@, hard),
        final(store).wf(),
{
    if hard {
        delete_sid(sid, store)
    } else {
        to_delete_sid(sid, store)
    }
}

} // verus!
