//! The rules of a match, stated on the model of the store: what each request
//! leads to, and what follows from that.

use vstd::prelude::*;
use crate::board::{attack_result, attacked, fleet_destroyed, Grid};
use crate::consistency::{
    lemma_player_update_consistent, lemma_renamed_consistent, lemma_renamed_moves_player,
};
use crate::code::is_room_code;
use crate::game::{Fault, Refusal, Status};
use crate::redundant::{concealed, flagged_until};
use crate::text::uppercase_of;
use crate::store::{
    consistent, has_player, has_room, lemma_player_position, lemma_room_position, member,
    player_at, room_at, seated, seats_sound, PlayerView, RoomView, StoreView,
};

verus! {

/// The room after the player has left its seats.
pub open spec fn vacated(r: RoomView, id: Seq<char>) -> RoomView {
    RoomView {
        code: r.code,
        player1_id: if r.player1_id == Some(id) {
            None
        } else {
            r.player1_id
        },
        player2_id: if r.player2_id == Some(id) {
            None
        } else {
            r.player2_id
        },
        stat: r.stat,
    }
}

/// The store after the player's record is removed and its seats are vacated.
pub open spec fn evicted(s: StoreView, id: Seq<char>) -> StoreView {
    StoreView {
        rooms: Seq::new(s.rooms.len(), |i: int| vacated(s.rooms[i], id)),
        players: if has_player(s, id) {
            s.players.remove(player_at(s, id))
        } else {
            s.players
        },
    }
}

/// The store with the player's abandoned flag set; unchanged if there is no
/// such player.
pub open spec fn flagged_abandoned(s: StoreView, id: Seq<char>) -> StoreView {
    if has_player(s, id) {
        let k = player_at(s, id);
        StoreView {
            rooms: s.rooms,
            players: s.players.update(
                k,
                PlayerView {
                    id: s.players[k].id,
                    room_code: s.players[k].room_code,
                    board: s.players[k].board,
                    abandoned: true,
                },
            ),
        }
    } else {
        s
    }
}

/// The store with the board stored for the player; unchanged if there is no
/// such player.
pub open spec fn with_board(s: StoreView, id: Seq<char>, board: Grid) -> StoreView {
    if has_player(s, id) {
        let k = player_at(s, id);
        StoreView {
            rooms: s.rooms,
            players: s.players.update(
                k,
                PlayerView {
                    id: s.players[k].id,
                    room_code: s.players[k].room_code,
                    board: Some(board),
                    abandoned: s.players[k].abandoned,
                },
            ),
        }
    } else {
        s
    }
}

/// The room with the seats of `from` handed to `to`.
pub open spec fn reseated(r: RoomView, from: Seq<char>, to: Seq<char>) -> RoomView {
    RoomView {
        code: r.code,
        player1_id: if r.player1_id == Some(from) {
            Some(to)
        } else {
            r.player1_id
        },
        player2_id: if r.player2_id == Some(from) {
            Some(to)
        } else {
            r.player2_id
        },
        stat: r.stat,
    }
}

/// The store after the player `from` has taken the id `to` and is no longer
/// abandoned.
pub open spec fn renamed(s: StoreView, from: Seq<char>, to: Seq<char>) -> StoreView {
    let k = player_at(s, from);
    StoreView {
        rooms: Seq::new(s.rooms.len(), |i: int| reseated(s.rooms[i], from, to)),
        players: s.players.update(
            k,
            PlayerView {
                id: to,
                room_code: s.players[k].room_code,
                board: s.players[k].board,
                abandoned: false,
            },
        ),
    }
}

/// What a request to hand the record of `from` to the session `to` leads to.
/// Nothing happens if nobody carries `from`; the request is refused if another
/// player carries `to`.
pub open spec fn resume_outcome(s: StoreView, from: Seq<char>, to: Seq<char>) -> Result<
    StoreView,
    Refusal,
> {
    if !has_player(s, from) {
        Ok(s)
    } else if from != to && has_player(s, to) {
        Err(Refusal::Persistence(Fault::DuplicatePlayer))
    } else {
        Ok(renamed(s, from, to))
    }
}

/// Whether the player is flagged as abandoned.
pub open spec fn abandoned_flag(s: StoreView, id: Seq<char>) -> Result<bool, Refusal> {
    if has_player(s, id) {
        Ok(s.players[player_at(s, id)].abandoned)
    } else {
        Err(Refusal::Persistence(Fault::PlayerMissing))
    }
}

/// The code of the room that the player joined, if the player exists.
pub open spec fn room_of(s: StoreView, id: Seq<char>) -> Option<Seq<char>> {
    if has_player(s, id) {
        Some(s.players[player_at(s, id)].room_code)
    } else {
        None
    }
}

/// The store with the status of the room at position `k` replaced.
pub open spec fn with_status(s: StoreView, k: int, stat: Status) -> StoreView {
    StoreView {
        rooms: s.rooms.update(
            k,
            RoomView {
                code: s.rooms[k].code,
                player1_id: s.rooms[k].player1_id,
                player2_id: s.rooms[k].player2_id,
                stat: stat,
            },
        ),
        players: s.players,
    }
}

/// Who fights whom: the room of the match, the defender and the status that
/// hands the turn to the defender.
pub struct Duel {
    pub room: int,
    pub defender: int,
    pub next: Status,
}

/// The defender named `other` must exist and own a board.
pub open spec fn duel_against(
    s: StoreView,
    room: int,
    other: Seq<char>,
    next: Status,
) -> Result<Duel, Refusal> {
    if !has_player(s, other) {
        Err(Refusal::Persistence(Fault::PlayerMissing))
    } else if s.players[player_at(s, other)].board is None {
        Err(Refusal::Persistence(Fault::BoardMissing))
    } else {
        Ok(Duel { room: room, defender: player_at(s, other), next: next })
    }
}

/// The duel that an attack by `sid` belongs to. The attacker must sit in a
/// room with two seated players whose status gives it the turn; the defender
/// is the player in the other seat.
pub open spec fn duel_of(s: StoreView, sid: Seq<char>) -> Result<Duel, Refusal> {
    if !has_player(s, sid) {
        Err(Refusal::Persistence(Fault::PlayerMissing))
    } else if !has_room(s, s.players[player_at(s, sid)].room_code) {
        Err(Refusal::Persistence(Fault::RoomMissing))
    } else {
        let k = room_at(s, s.players[player_at(s, sid)].room_code);
        let r = s.rooms[k];
        if r.player1_id is Some && r.player2_id is Some {
            if r.player1_id->Some_0 == sid && r.stat == Status::P1Turn {
                duel_against(s, k, r.player2_id->Some_0, Status::P2Turn)
            } else if r.player2_id->Some_0 == sid && r.stat == Status::P2Turn {
                duel_against(s, k, r.player1_id->Some_0, Status::P1Turn)
            } else {
                Err(Refusal::RoomNotFull)
            }
        } else {
            Err(Refusal::RoomNotFull)
        }
    }
}

/// What an attack leaves behind and reports.
pub struct Struck {
    /// The store after the attack.
    pub store: StoreView,
    /// The defender's board after the attack.
    pub board: Grid,
    /// The shot found a ship.
    pub hit: bool,
    /// The shot destroyed the defender's last ship cell.
    pub game_over: bool,
}

/// The store with the board of the player at position `k` replaced.
pub open spec fn with_board_at(s: StoreView, k: int, board: Grid) -> StoreView {
    StoreView {
        rooms: s.rooms,
        players: s.players.update(
            k,
            PlayerView {
                id: s.players[k].id,
                room_code: s.players[k].room_code,
                board: Some(board),
                abandoned: s.players[k].abandoned,
            },
        ),
    }
}

/// An attack by `sid` on the square `at`. The shot lands on the defender's
/// board. A miss hands the turn to the defender, a hit keeps it, and a shot
/// that leaves the defender without intact ship cells ends the game whatever
/// else it did. A refused attack changes nothing.
pub open spec fn attack_outcome(s: StoreView, sid: Seq<char>, at: (int, int)) -> Result<
    Struck,
    Refusal,
> {
    match duel_of(s, sid) {
        Err(e) => Err(e),
        Ok(d) => {
            let g = s.players[d.defender].board->Some_0;
            match attack_result(g, at.0, at.1) {
                None => Err(Refusal::InvalidMove),
                Some(hit) => {
                    let after = attacked(g, at.0, at.1);
                    let over = fleet_destroyed(after);
                    let stat = if over {
                        Status::GameOver
                    } else if hit {
                        s.rooms[d.room].stat
                    } else {
                        d.next
                    };
                    Ok(
                        Struck {
                            store: with_status(with_board_at(s, d.defender, after), d.room, stat),
                            board: after,
                            hit: hit,
                            game_over: over,
                        },
                    )
                },
            }
        },
    }
}

/// The status that gives the turn to the other seat.
pub open spec fn turn_passed(stat: Status) -> Status {
    match stat {
        Status::P1Turn => Status::P2Turn,
        Status::P2Turn => Status::P1Turn,
        other => other,
    }
}

/// Turn alternation. Of an accepted attack: before it the room's status gave
/// the turn to the attacker; after a miss that does not end the game the turn
/// has passed to the other seat, after a hit that does not end the game the
/// status is what it was, and a shot that ends the game leaves the room in
/// `GameOver`.
pub proof fn lemma_turn_alternation(s: StoreView, sid: Seq<char>, at: (int, int))
    requires
        attack_outcome(s, sid, at) is Ok,
    ensures
        ({
            let d = duel_of(s, sid)->Ok_0;
            let out = attack_outcome(s, sid, at)->Ok_0;
            let before = s.rooms[d.room].stat;
            let after = out.store.rooms[d.room].stat;
            &&& 0 <= d.room < s.rooms.len()
            &&& before == Status::P1Turn || before == Status::P2Turn
            &&& out.game_over ==> after == Status::GameOver
            &&& !out.game_over && out.hit ==> after == before
            &&& !out.game_over && !out.hit ==> after == turn_passed(before)
        }),
{
}

/// A player who has just joined a room: no board yet, not abandoned.
pub open spec fn newcomer(id: Seq<char>, code: Seq<char>) -> PlayerView {
    PlayerView { id: id, room_code: code, board: None, abandoned: false }
}

/// The store after a new player has taken the first free seat of the room at
/// position `k`.
pub open spec fn seated_at(s: StoreView, k: int, id: Seq<char>) -> StoreView {
    let r = s.rooms[k];
    StoreView {
        rooms: s.rooms.update(
            k,
            RoomView {
                code: r.code,
                player1_id: if r.player1_id is None {
                    Some(id)
                } else {
                    r.player1_id
                },
                player2_id: if r.player1_id is None {
                    r.player2_id
                } else {
                    Some(id)
                },
                stat: r.stat,
            },
        ),
        players: s.players.push(newcomer(id, r.code)),
    }
}

/// The store after a new player has opened a room of its own.
pub open spec fn opened(s: StoreView, id: Seq<char>, code: Seq<char>) -> StoreView {
    StoreView {
        rooms: s.rooms.push(
            RoomView { code: code, player1_id: Some(id), player2_id: None, stat: Status::Waiting },
        ),
        players: s.players.push(newcomer(id, code)),
    }
}

/// Why a room with two seated players turns a newcomer away: the first
/// abandoned occupant is named, so that its session can be resumed.
pub open spec fn full_refusal(s: StoreView, p1: Seq<char>, p2: Seq<char>) -> Refusal {
    if !has_player(s, p1) {
        Refusal::Persistence(Fault::PlayerMissing)
    } else if s.players[player_at(s, p1)].abandoned {
        Refusal::RoomFull(Some(p1))
    } else if !has_player(s, p2) {
        Refusal::Persistence(Fault::PlayerMissing)
    } else if s.players[player_at(s, p2)].abandoned {
        Refusal::RoomFull(Some(p2))
    } else {
        Refusal::RoomFull(None)
    }
}

/// The code that a join request is matched under: a text in the form of a
/// room code as it is, any other text in upper case.
pub open spec fn matched_code(code: Seq<char>) -> Seq<char> {
    if is_room_code(code) {
        code
    } else {
        uppercase_of(code)
    }
}

/// What a request of `sid` to join the room `code` leads to. A player who
/// sits in the room already is refused, unless the game there is over: then
/// the room returns to `Waiting` with its seats as they are. A finished room
/// is closed to newcomers, and so is a room with both seats taken. Otherwise
/// the player leaves whatever it had before and takes the first free seat.
pub open spec fn join_outcome(s: StoreView, sid: Seq<char>, code: Seq<char>) -> Result<
    StoreView,
    Refusal,
> {
    if !has_room(s, code) {
        Err(Refusal::Persistence(Fault::RoomMissing))
    } else {
        let k = room_at(s, code);
        let r = s.rooms[k];
        if seated(r, sid) {
            if r.stat == Status::GameOver {
                Ok(with_status(s, k, Status::Waiting))
            } else {
                Err(Refusal::AlreadyInRoom)
            }
        } else if r.stat == Status::GameOver {
            Err(Refusal::GameOverRoom)
        } else if r.player1_id is Some && r.player2_id is Some {
            Err(full_refusal(s, r.player1_id->Some_0, r.player2_id->Some_0))
        } else {
            Ok(seated_at(evicted(s, sid), k, sid))
        }
    }
}

/// What a request of `sid` to start the match in the room `code` leads to:
/// with both seats taken, the turn goes to the player who did not ask.
pub open spec fn start_outcome(s: StoreView, sid: Seq<char>, code: Seq<char>) -> Result<
    StoreView,
    Refusal,
> {
    if !has_room(s, code) {
        Err(Refusal::Persistence(Fault::RoomMissing))
    } else {
        let k = room_at(s, code);
        let r = s.rooms[k];
        if !(r.player1_id is Some && r.player2_id is Some) {
            Err(Refusal::RoomNotFull)
        } else if r.player1_id->Some_0 == sid {
            Ok(with_status(s, k, Status::P2Turn))
        } else if r.player2_id->Some_0 == sid {
            Ok(with_status(s, k, Status::P1Turn))
        } else {
            Err(Refusal::NotInRoom)
        }
    }
}

/// The board that the player holds as a member of the room.
pub open spec fn board_in_room(s: StoreView, id: Seq<char>, code: Seq<char>) -> Result<
    Grid,
    Refusal,
> {
    if !has_player(s, id) || s.players[player_at(s, id)].room_code != code {
        Err(Refusal::Persistence(Fault::PlayerMissing))
    } else {
        match s.players[player_at(s, id)].board {
            None => Err(Refusal::Persistence(Fault::BoardMissing)),
            Some(g) => Ok(g),
        }
    }
}

/// What a player sees of a match.
pub struct Snapshot {
    /// The player may attack.
    pub my_turn: bool,
    /// The player's own board.
    pub mine: Grid,
    /// The opponent's board as the player may see it.
    pub theirs: Grid,
    /// One of the two fleets is destroyed.
    pub game_over: bool,
}

/// What the player `sid` sees of the match in the room `code`: its own board
/// as it is, the opponent's board with the ruled-out squares flagged and the
/// intact ship cells concealed.
pub open spec fn snapshot_of(s: StoreView, sid: Seq<char>, code: Seq<char>) -> Result<
    Snapshot,
    Refusal,
> {
    if !has_room(s, code) {
        Err(Refusal::Persistence(Fault::RoomMissing))
    } else {
        let r = s.rooms[room_at(s, code)];
        if !(r.player1_id is Some && r.player2_id is Some && seated(r, sid)) {
            Err(Refusal::NotInRoom)
        } else {
            let other = if r.player1_id->Some_0 == sid {
                r.player2_id->Some_0
            } else {
                r.player1_id->Some_0
            };
            match board_in_room(s, sid, code) {
                Err(e) => Err(e),
                Ok(mine) => match board_in_room(s, other, code) {
                    Err(e) => Err(e),
                    Ok(theirs) => Ok(
                        Snapshot {
                            my_turn: (r.stat == Status::P1Turn && r.player1_id->Some_0 == sid) || (
                            r.stat == Status::P2Turn && r.player2_id->Some_0 == sid),
                            mine: mine,
                            theirs: concealed(flagged_until(theirs, 100)),
                            game_over: fleet_destroyed(mine) || fleet_destroyed(theirs),
                        },
                    ),
                },
            }
        }
    }
}

/// The store after the player has left for good (`hard`) or lost its
/// connection.
pub open spec fn departed(s: StoreView, id: Seq<char>, hard: bool) -> StoreView {
    if hard {
        evicted(s, id)
    } else {
        flagged_abandoned(s, id)
    }
}

/// A dropped connection followed by a resume under a new id shows the
/// player what it saw before: the snapshot of its match is the same.
pub proof fn lemma_reconnect_keeps_snapshot(
    s: StoreView,
    old_id: Seq<char>,
    new_id: Seq<char>,
    code: Seq<char>,
)
    requires
        consistent(s),
        has_player(s, old_id),
        old_id == new_id || !has_player(s, new_id),
    ensures
        snapshot_of(renamed(flagged_abandoned(s, old_id), old_id, new_id), new_id, code)
            == snapshot_of(s, old_id, code),
{
    let k = player_at(s, old_id);
    let dropped = flagged_abandoned(s, old_id);
    lemma_player_update_consistent(s, k, dropped.players[k]);
    assert(dropped.players[k].id == old_id);
    lemma_player_position(dropped, old_id, k);
    if old_id != new_id && has_player(dropped, new_id) {
        let j = player_at(dropped, new_id);
        assert(s.players[j].id == new_id);
    }
    let t = renamed(dropped, old_id, new_id);
    lemma_renamed_consistent(dropped, old_id, new_id);
    lemma_renamed_moves_player(dropped, old_id, new_id);
    // the rooms keep their codes and their places
    if has_room(s, code) {
        let j = room_at(s, code);
        assert(t.rooms[j].code == code);
        lemma_room_position(t, code, j);
        let r = s.rooms[j];
        let r2 = t.rooms[j];
        assert(r2 == reseated(r, old_id, new_id));
        assert(seats_sound(s, r));
        // nobody sits under the new id before the resume
        if old_id != new_id {
            if r.player1_id == Some(new_id) {
                assert(member(s, new_id, r.code));
                assert(has_player(s, new_id));
            }
            if r.player2_id == Some(new_id) {
                assert(member(s, new_id, r.code));
                assert(has_player(s, new_id));
            }
        }
        if r.player1_id is Some && r.player2_id is Some && seated(r, old_id) {
            let other = if r.player1_id->Some_0 == old_id {
                r.player2_id->Some_0
            } else {
                r.player1_id->Some_0
            };
            assert(other != old_id && other != new_id);
            assert(member(s, other, r.code));
            assert(has_player(s, other));
            let m = player_at(s, other);
            assert(m != k);
            assert(dropped.players[m] == s.players[m]);
            assert(dropped.players[m].id == other);
            lemma_player_position(dropped, other, m);
            assert(t.players[m] == dropped.players[m]);
            assert(board_in_room(t, other, code) == board_in_room(s, other, code));
            assert(board_in_room(t, new_id, code) == board_in_room(s, old_id, code));
        }
    } else {
        if has_room(t, code) {
            let j = room_at(t, code);
            assert(s.rooms[j].code == code);
        }
    }
}

/// A finished room and a request to join it. One of its players returns it
/// to `Waiting` with both seats and every player as they are; anybody else is
/// turned away.
pub proof fn lemma_rejoin_after_game_over(s: StoreView, sid: Seq<char>, code: Seq<char>)
    requires
        has_room(s, code),
        s.rooms[room_at(s, code)].stat == Status::GameOver,
    ensures
        ({
            let k = room_at(s, code);
            if seated(s.rooms[k], sid) {
                &&& join_outcome(s, sid, code) matches Ok(t)
                &&& t.players == s.players
                &&& t.rooms.len() == s.rooms.len()
                &&& t.rooms[k].stat == Status::Waiting
                &&& t.rooms[k].player1_id == s.rooms[k].player1_id
                &&& t.rooms[k].player2_id == s.rooms[k].player2_id
                &&& forall|j: int| 0 <= j < s.rooms.len() && j != k ==> t.rooms[j] == s.rooms[j]
            } else {
                join_outcome(s, sid, code) == Err::<StoreView, Refusal>(Refusal::GameOverRoom)
            }
        }),
{
}

/// Handing a record over is idempotent: a second request with the same ids
/// changes nothing.
pub proof fn lemma_resume_is_idempotent(s: StoreView, from: Seq<char>, to: Seq<char>)
    requires
        consistent(s),
        resume_outcome(s, from, to) is Ok,
    ensures
        resume_outcome(resume_outcome(s, from, to)->Ok_0, from, to) == resume_outcome(s, from, to),
{
    if has_player(s, from) {
        let t = renamed(s, from, to);
        lemma_renamed_moves_player(s, from, to);
        if from == to {
            assert(renamed(t, from, to).players =~= t.players);
            assert(renamed(t, from, to).rooms =~= t.rooms);
        }
    }
}

} // verus!
