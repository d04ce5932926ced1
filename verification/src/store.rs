//! The records of a match, rooms and players, and the table that holds them.

use vstd::prelude::*;
use crate::board::{Board, Grid};
use crate::game::Status;

verus! {

/// One participant of a match.
#[derive(Debug, Clone, PartialEq, Eq)]
pub struct Player {
    /// Session id, the player's identity.
    pub id: String,
    /// Code of the room the player joined.
    pub room_code: String,
    /// The player's board, once uploaded.
    pub board: Option<Board>,
    /// Set when the connection dropped and the session may still be resumed.
    pub abandoned: bool,
}

/// A room for two players.
#[derive(Debug, Clone, PartialEq, Eq)]
pub struct Room {
    /// The room's code.
    pub code: String,
    /// Session id of the player in the first seat.
    pub player1_id: Option<String>,
    /// Session id of the player in the second seat.
    pub player2_id: Option<String>,
    /// The room's status.
    pub stat: Status,
}

/// All rooms and players. The seats of a room refer to players: removing a
/// player vacates the seats that name it, and renaming a player renames them.
#[derive(Debug, Clone, PartialEq, Eq)]
pub struct Store {
    pub rooms: Vec<Room>,
    pub players: Vec<Player>,
}

/// The model of a player.
pub struct PlayerView {
    pub id: Seq<char>,
    pub room_code: Seq<char>,
    pub board: Option<Grid>,
    pub abandoned: bool,
}

/// The model of a room.
pub struct RoomView {
    pub code: Seq<char>,
    pub player1_id: Option<Seq<char>>,
    pub player2_id: Option<Seq<char>>,
    pub stat: Status,
}

/// The model of the store.
pub struct StoreView {
    pub rooms: Seq<RoomView>,
    pub players: Seq<PlayerView>,
}

/// The characters of an optional string.
pub open spec fn text_of(o: Option<String>) -> Option<Seq<char>> {
    match o {
        Some(s) => Some(s@),
        None => None,
    }
}

/// The grid of an optional board.
pub open spec fn grid_of(o: Option<Board>) -> Option<Grid> {
    match o {
        Some(b) => Some(b@),
        None => None,
    }
}

impl View for Player {
    type V = PlayerView;

    open spec fn view(&self) -> PlayerView {
        PlayerView {
            id: self.id@,
            room_code: self.room_code@,
            board: grid_of(self.board),
            abandoned: self.abandoned,
        }
    }
}

impl View for Room {
    type V = RoomView;

    open spec fn view(&self) -> RoomView {
        RoomView {
            code: self.code@,
            player1_id: text_of(self.player1_id),
            player2_id: text_of(self.player2_id),
            stat: self.stat,
        }
    }
}

impl View for Store {
    type V = StoreView;

    open spec fn view(&self) -> StoreView {
        StoreView {
            rooms: Seq::new(self.rooms@.len(), |i: int| self.rooms@[i]@),
            players: Seq::new(self.players@.len(), |i: int| self.players@[i]@),
        }
    }
}

/// Some player carries the id.
pub open spec fn has_player(s: StoreView, id: Seq<char>) -> bool {
    exists|k: int| 0 <= k < s.players.len() && (#[trigger] s.players[k]).id == id
}

/// Position of a player that carries the id.
pub open spec fn player_at(s: StoreView, id: Seq<char>) -> int {
    choose|k: int| 0 <= k < s.players.len() && (#[trigger] s.players[k]).id == id
}

/// Some room carries the code.
pub open spec fn has_room(s: StoreView, code: Seq<char>) -> bool {
    exists|k: int| 0 <= k < s.rooms.len() && (#[trigger] s.rooms[k]).code == code
}

/// Position of a room that carries the code.
pub open spec fn room_at(s: StoreView, code: Seq<char>) -> int {
    choose|k: int| 0 <= k < s.rooms.len() && (#[trigger] s.rooms[k]).code == code
}

/// A player with this id has joined the room with this code.
pub open spec fn member(s: StoreView, id: Seq<char>, code: Seq<char>) -> bool {
    exists|k: int|
        0 <= k < s.players.len() && (#[trigger] s.players[k]).id == id && s.players[k].room_code
            == code
}

/// The player sits in one of the room's seats.
pub open spec fn seated(r: RoomView, id: Seq<char>) -> bool {
    r.player1_id == Some(id) || r.player2_id == Some(id)
}

/// The seats of a room hold different players, each a member of the room.
pub open spec fn seats_sound(s: StoreView, r: RoomView) -> bool {
    &&& r.player1_id is Some && r.player2_id is Some ==> r.player1_id != r.player2_id
    &&& r.player1_id matches Some(p) ==> member(s, p, r.code)
    &&& r.player2_id matches Some(p) ==> member(s, p, r.code)
}

/// The store's invariant: session ids and room codes are unique, a room
/// seats at most two different players, and whoever sits in a room is a
/// player who joined it, so that nobody sits in two rooms.
pub open spec fn consistent(s: StoreView) -> bool {
    &&& forall|a: int, b: int|
        0 <= a < b < s.players.len() ==> (#[trigger] s.players[a]).id != (
        #[trigger] s.players[b]).id
    &&& forall|a: int, b: int|
        0 <= a < b < s.rooms.len() ==> (#[trigger] s.rooms[a]).code != (#[trigger] s.rooms[b]).code
    &&& forall|k: int| 0 <= k < s.rooms.len() ==> seats_sound(s, #[trigger] s.rooms[k])
}

/// In a consistent store a player is found at one position only.
pub proof fn lemma_player_position(s: StoreView, id: Seq<char>, k: int)
    requires
        consistent(s),
        0 <= k < s.players.len(),
        s.players[k].id == id,
    ensures
        has_player(s, id),
        player_at(s, id) == k,
{
    let j = player_at(s, id);
    if j < k {
        assert(s.players[j].id != s.players[k].id);
    }
    if k < j {
        assert(s.players[k].id != s.players[j].id);
    }
}

/// In a consistent store a room is found at one position only.
pub proof fn lemma_room_position(s: StoreView, code: Seq<char>, k: int)
    requires
        consistent(s),
        0 <= k < s.rooms.len(),
        s.rooms[k].code == code,
    ensures
        has_room(s, code),
        room_at(s, code) == k,
{
    let j = room_at(s, code);
    if j < k {
        assert(s.rooms[j].code != s.rooms[k].code);
    }
    if k < j {
        assert(s.rooms[k].code != s.rooms[j].code);
    }
}

/// In a consistent store nobody sits in two rooms.
pub proof fn lemma_one_room_per_player(s: StoreView, id: Seq<char>, a: int, b: int)
    requires
        consistent(s),
        0 <= a < s.rooms.len(),
        0 <= b < s.rooms.len(),
        seated(s.rooms[a], id),
        seated(s.rooms[b], id),
    ensures
        a == b,
{
    assert(seats_sound(s, s.rooms[a]));
    assert(seats_sound(s, s.rooms[b]));
    assert(member(s, id, s.rooms[a].code));
    assert(member(s, id, s.rooms[b].code));
    let i = choose|k: int|
        0 <= k < s.players.len() && (#[trigger] s.players[k]).id == id && s.players[k].room_code
            == s.rooms[a].code;
    let j = choose|k: int|
        0 <= k < s.players.len() && (#[trigger] s.players[k]).id == id && s.players[k].room_code
            == s.rooms[b].code;
    lemma_player_position(s, id, i);
    lemma_player_position(s, id, j);
    assert(s.rooms[a].code == s.rooms[b].code);
    if a < b {
        assert(s.rooms[a].code != s.rooms[b].code);
    }
    if b < a {
        assert(s.rooms[b].code != s.rooms[a].code);
    }
}

impl Store {
    /// The store's invariant holds.
    pub open spec fn wf(&self) -> bool {
        consistent(self@)
    }

    /// A store without rooms or players.
    pub fn new() -> (s: Store)
        ensures
            s@.rooms.len() == 0,
            s@.players.len() == 0,
            s.wf(),
    {
        Store { rooms: Vec::new(), players: Vec::new() }
    }

    /// Position of the first player that carries the id.
    pub fn find_player(&self, id: &String) -> (r: Option<usize>)
        ensures
            r matches Some(k) ==> k < self.players.len() && self@.players[k as int].id == id@,
            r is Some <==> has_player(self@, id@),
            self.wf() ==> (r matches Some(k) ==> k as int == player_at(self@, id@)),
    {
        let mut k: usize = 0;
        while k < self.players.len()
            invariant
                k <= self.players.len(),
                forall|j: int| 0 <= j < k ==> (#[trigger] self@.players[j]).id != id@,
            decreases self.players.len() - k,
        {
            if self.players[k].id == *id {
                proof {
                    assert(self@.players[k as int].id == id@);
                    if self.wf() {
                        lemma_player_position(self@, id@, k as int);
                    }
                }
                return Some(k);
            }
            k += 1;
        }
        None
    }

    /// Position of the first room that carries the code.
    pub fn find_room(&self, code: &String) -> (r: Option<usize>)
        ensures
            r matches Some(k) ==> k < self.rooms.len() && self@.rooms[k as int].code == code@,
            r is Some <==> has_room(self@, code@),
            self.wf() ==> (r matches Some(k) ==> k as int == room_at(self@, code@)),
    {
        let mut k: usize = 0;
        while k < self.rooms.len()
            invariant
                k <= self.rooms.len(),
                forall|j: int| 0 <= j < k ==> (#[trigger] self@.rooms[j]).code != code@,
            decreases self.rooms.len() - k,
        {
            if self.rooms[k].code == *code {
                proof {
                    assert(self@.rooms[k as int].code == code@);
                    if self.wf() {
                        lemma_room_position(self@, code@, k as int);
                    }
                }
                return Some(k);
            }
            k += 1;
        }
        None
    }

    /// Some player with this id has joined the room with this code.
    pub fn is_member(&self, id: &String, code: &String) -> (r: bool)
        ensures
            r == member(self@, id@, code@),
    {
        let mut k: usize = 0;
        while k < self.players.len()
            invariant
                k <= self.players.len(),
                forall|j: int|
                    0 <= j < k ==> !((#[trigger] self@.players[j]).id == id@
                        && self@.players[j].room_code == code@),
            decreases self.players.len() - k,
        {
            if self.players[k].id == *id && self.players[k].room_code == *code {
                assert(self@.players[k as int].id == id@ && self@.players[k as int].room_code
                    == code@);
                return true;
            }
            k += 1;
        }
        false
    }

    /// The seats of the room at position `k` are sound.
    fn seats_are_sound(&self, k: usize) -> (ok: bool)
        requires
            k < self.rooms.len(),
        ensures
            ok == seats_sound(self@, self@.rooms[k as int]),
    {
        let room = &self.rooms[k];
        match &room.player1_id {
            Some(p1) => {
                if !self.is_member(p1, &room.code) {
                    return false;
                }
                match &room.player2_id {
                    Some(p2) => *p1 != *p2 && self.is_member(p2, &room.code),
                    None => true,
                }
            },
            None => match &room.player2_id {
                Some(p2) => self.is_member(p2, &room.code),
                None => true,
            },
        }
    }

    /// Checks the store's invariant.
    pub fn is_wf(&self) -> (ok: bool)
        ensures
            ok == self.wf(),
    {
        let mut a: usize = 0;
        while a < self.players.len()
            invariant
                a <= self.players.len(),
                forall|i: int, j: int|
                    0 <= i < a && i < j < self.players.len() ==> (#[trigger] self@.players[i]).id
                        != (#[trigger] self@.players[j]).id,
            decreases self.players.len() - a,
        {
            let mut b: usize = a + 1;
            while b < self.players.len()
                invariant
                    a < b <= self.players.len(),
                    forall|j: int|
                        a < j < b ==> self@.players[a as int].id != (
                        #[trigger] self@.players[j]).id,
                decreases self.players.len() - b,
            {
                if self.players[a].id == self.players[b].id {
                    assert(self@.players[a as int].id == self@.players[b as int].id);
                    return false;
                }
                b += 1;
            }
            a += 1;
        }
        let mut a: usize = 0;
        while a < self.rooms.len()
            invariant
                a <= self.rooms.len(),
                forall|i: int, j: int|
                    0 <= i < a && i < j < self.rooms.len() ==> (#[trigger] self@.rooms[i]).code != (
                    #[trigger] self@.rooms[j]).code,
            decreases self.rooms.len() - a,
        {
            let mut b: usize = a + 1;
            while b < self.rooms.len()
                invariant
                    a < b <= self.rooms.len(),
                    forall|j: int|
                        a < j < b ==> self@.rooms[a as int].code != (
                        #[trigger] self@.rooms[j]).code,
                decreases self.rooms.len() - b,
            {
                if self.rooms[a].code == self.rooms[b].code {
                    assert(self@.rooms[a as int].code == self@.rooms[b as int].code);
                    return false;
                }
                b += 1;
            }
            a += 1;
        }
        let mut k: usize = 0;
        while k < self.rooms.len()
            invariant
                k <= self.rooms.len(),
                forall|j: int| 0 <= j < k ==> seats_sound(self@, #[trigger] self@.rooms[j]),
            decreases self.rooms.len() - k,
        {
            if !self.seats_are_sound(k) {
                return false;
            }
            k += 1;
        }
        true
    }
}

} // verus!
