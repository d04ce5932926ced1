//! The operations of a match keep the store consistent: one lemma for each
//! way in which they change it.

use vstd::prelude::*;
use crate::game::Status;
use crate::rules::{
    evicted, newcomer, opened, renamed, reseated, seated_at, vacated, with_status,
};
use crate::store::{
    consistent, has_player, has_room, lemma_player_position, member, player_at, seats_sound,
    PlayerView, StoreView,
};

verus! {

/// Removing a player keeps the store consistent.
pub proof fn lemma_evicted_consistent(s: StoreView, id: Seq<char>)
    requires
        consistent(s),
    ensures
        consistent(evicted(s, id)),
        !has_player(evicted(s, id), id),
{
    let t = evicted(s, id);
    if has_player(s, id) {
        let k = player_at(s, id);
        assert forall|a: int| 0 <= a < t.players.len() implies (#[trigger] t.players[a])
            == s.players[if a < k { a } else { a + 1 }] by {}
        assert forall|a: int|
            0 <= a < t.players.len() implies (#[trigger] t.players[a]).id != id by {
            let a2 = if a < k { a } else { a + 1 };
            assert(t.players[a] == s.players[a2]);
            if a2 < k {
                assert(s.players[a2].id != s.players[k].id);
            } else {
                assert(s.players[k].id != s.players[a2].id);
            }
        }
        assert forall|a: int, b: int|
            0 <= a < b < t.players.len() implies
            (#[trigger] t.players[a]).id != (#[trigger] t.players[b]).id by {
            let a2 = if a < k { a } else { a + 1 };
            let b2 = if b < k { b } else { b + 1 };
            assert(t.players[a] == s.players[a2]);
            assert(t.players[b] == s.players[b2]);
            assert(s.players[a2].id != s.players[b2].id);
        }
    } else {
        assert forall|a: int|
            0 <= a < t.players.len() implies (#[trigger] t.players[a]).id != id by {
            assert(s.players[a].id != id);
        }
    }
    assert forall|j: int| 0 <= j < t.rooms.len() implies seats_sound(t, #[trigger] t.rooms[j]) by {
        let r = s.rooms[j];
        assert(seats_sound(s, r));
        assert(t.rooms[j] == vacated(r, id));
        assert forall|p: Seq<char>|
            p != id && member(s, p, r.code) implies member(t, p, r.code) by {
            let m = choose|m: int|
                0 <= m < s.players.len()
                    && (#[trigger] s.players[m]).id == p
                    && s.players[m].room_code == r.code;
            if has_player(s, id) {
                let k = player_at(s, id);
                let m2 = if m < k { m } else { m - 1 };
                assert(t.players[m2] == s.players[m]);
            } else {
                assert(t.players[m] == s.players[m]);
            }
        }
    }
    assert forall|a: int, b: int|
        0 <= a < b < t.rooms.len() implies
        (#[trigger] t.rooms[a]).code != (#[trigger] t.rooms[b]).code by {
        assert(s.rooms[a].code != s.rooms[b].code);
    }
}

/// Changing what a player holds, but neither its id nor its room, keeps the
/// store consistent.
pub proof fn lemma_player_update_consistent(s: StoreView, k: int, p: PlayerView)
    requires
        consistent(s),
        0 <= k < s.players.len(),
        p.id == s.players[k].id,
        p.room_code == s.players[k].room_code,
    ensures
        consistent(StoreView { rooms: s.rooms, players: s.players.update(k, p) }),
{
    let t = StoreView { rooms: s.rooms, players: s.players.update(k, p) };
    assert forall|a: int, b: int|
        0 <= a < b < t.players.len() implies
        (#[trigger] t.players[a]).id != (#[trigger] t.players[b]).id by {
        assert(s.players[a].id != s.players[b].id);
    }
    assert forall|j: int| 0 <= j < t.rooms.len() implies seats_sound(t, #[trigger] t.rooms[j]) by {
        let r = s.rooms[j];
        assert(seats_sound(s, r));
        assert forall|q: Seq<char>| member(s, q, r.code) implies member(t, q, r.code) by {
            let m = choose|m: int|
                0 <= m < s.players.len()
                    && (#[trigger] s.players[m]).id == q
                    && s.players[m].room_code == r.code;
            assert(t.players[m].id == q && t.players[m].room_code == r.code);
        }
    }
}

/// Renaming a player to an unused id keeps the store consistent.
pub proof fn lemma_renamed_consistent(s: StoreView, from: Seq<char>, to: Seq<char>)
    requires
        consistent(s),
        has_player(s, from),
        from == to || !has_player(s, to),
    ensures
        consistent(renamed(s, from, to)),
{
    let t = renamed(s, from, to);
    let k = player_at(s, from);
    assert forall|a: int|
        0 <= a < s.players.len()
            && a != k implies
        (#[trigger] s.players[a]).id != from
            && s.players[a].id != to by {
        if a < k {
            assert(s.players[a].id != s.players[k].id);
        } else {
            assert(s.players[k].id != s.players[a].id);
        }
    }
    assert forall|a: int, b: int|
        0 <= a < b < t.players.len() implies
        (#[trigger] t.players[a]).id != (#[trigger] t.players[b]).id by {
        assert(s.players[a].id != s.players[b].id);
    }
    assert forall|a: int, b: int|
        0 <= a < b < t.rooms.len() implies
        (#[trigger] t.rooms[a]).code != (#[trigger] t.rooms[b]).code by {
        assert(s.rooms[a].code != s.rooms[b].code);
    }
    assert forall|j: int| 0 <= j < t.rooms.len() implies seats_sound(t, #[trigger] t.rooms[j]) by {
        let r = s.rooms[j];
        assert(seats_sound(s, r));
        assert(t.rooms[j] == reseated(r, from, to));
        assert forall|q: Seq<char>|
            member(s, q, r.code) implies member(t, if q == from { to } else { q }, r.code) by {
            let m = choose|m: int|
                0 <= m < s.players.len()
                    && (#[trigger] s.players[m]).id == q
                    && s.players[m].room_code == r.code;
            if m == k {
                assert(t.players[m].id == to && t.players[m].room_code == r.code);
            } else {
                assert(t.players[m].id == q && t.players[m].room_code == r.code);
            }
        }
        assert forall|q: Seq<char>| member(s, q, r.code) && from != to implies q != to by {
            let m = choose|m: int|
                0 <= m < s.players.len()
                    && (#[trigger] s.players[m]).id == q
                    && s.players[m].room_code == r.code;
            if q == to {
                assert(has_player(s, to));
            }
        }
    }
}

/// A change of status keeps the store consistent.
pub proof fn lemma_with_status_consistent(s: StoreView, k: int, stat: Status)
    requires
        consistent(s),
        0 <= k < s.rooms.len(),
    ensures
        consistent(with_status(s, k, stat)),
{
    let t = with_status(s, k, stat);
    assert forall|a: int, b: int|
        0 <= a < b < t.rooms.len() implies
        (#[trigger] t.rooms[a]).code != (#[trigger] t.rooms[b]).code by {
        assert(s.rooms[a].code != s.rooms[b].code);
    }
    assert forall|j: int| 0 <= j < t.rooms.len() implies seats_sound(t, #[trigger] t.rooms[j]) by {
        assert(seats_sound(s, s.rooms[j]));
    }
}

/// Appending a player that nobody refers to keeps the store consistent.
pub proof fn lemma_push_player_members(s: StoreView, p: PlayerView, code: Seq<char>, q: Seq<char>)
    requires
        member(s, q, code),
    ensures
        member(StoreView { rooms: s.rooms, players: s.players.push(p) }, q, code),
{
    let t = StoreView { rooms: s.rooms, players: s.players.push(p) };
    let m = choose|m: int|
        0 <= m < s.players.len()
            && (#[trigger] s.players[m]).id == q
            && s.players[m].room_code == code;
    assert(t.players[m] == s.players[m]);
}

/// Seating a new player in a room with a free seat keeps the store
/// consistent.
pub proof fn lemma_seated_consistent(s: StoreView, k: int, id: Seq<char>)
    requires
        consistent(s),
        !has_player(s, id),
        0 <= k < s.rooms.len(),
        !(s.rooms[k].player1_id is Some && s.rooms[k].player2_id is Some),
    ensures
        consistent(seated_at(s, k, id)),
{
    let t = seated_at(s, k, id);
    let n = s.players.len() as int;
    let fresh = newcomer(id, s.rooms[k].code);
    assert(t.players[n] == newcomer(id, s.rooms[k].code));
    assert forall|a: int, b: int|
        0 <= a < b < t.players.len() implies
        (#[trigger] t.players[a]).id != (#[trigger] t.players[b]).id by {
        assert(t.players[a] == s.players[a]);
        if b < n {
            assert(t.players[b] == s.players[b]);
            assert(s.players[a].id != s.players[b].id);
        } else {
            assert(s.players[a].id != id);
        }
    }
    assert forall|a: int, b: int|
        0 <= a < b < t.rooms.len() implies
        (#[trigger] t.rooms[a]).code != (#[trigger] t.rooms[b]).code by {
        assert(s.rooms[a].code != s.rooms[b].code);
    }
    assert forall|j: int| 0 <= j < t.rooms.len() implies seats_sound(t, #[trigger] t.rooms[j]) by {
        let r = s.rooms[j];
        assert(seats_sound(s, r));
        if r.player1_id is Some {
            lemma_push_player_members(s, fresh, r.code, r.player1_id->Some_0);
            assert(has_player(s, r.player1_id->Some_0));
        }
        if r.player2_id is Some {
            lemma_push_player_members(s, fresh, r.code, r.player2_id->Some_0);
            assert(has_player(s, r.player2_id->Some_0));
        }
        if j == k {
            assert(t.players[n].id == id && t.players[n].room_code == r.code);
            assert(member(t, id, r.code));
        }
    }
}

/// Opening a room under an unused code for a new player keeps the store
/// consistent.
pub proof fn lemma_opened_consistent(s: StoreView, id: Seq<char>, code: Seq<char>)
    requires
        consistent(s),
        !has_player(s, id),
        !has_room(s, code),
    ensures
        consistent(opened(s, id, code)),
{
    let t = opened(s, id, code);
    let n = s.players.len() as int;
    let m = s.rooms.len() as int;
    assert(t.players[n] == newcomer(id, code));
    assert forall|a: int, b: int|
        0 <= a < b < t.players.len() implies
        (#[trigger] t.players[a]).id != (#[trigger] t.players[b]).id by {
        assert(t.players[a] == s.players[a]);
        if b < n {
            assert(t.players[b] == s.players[b]);
            assert(s.players[a].id != s.players[b].id);
        } else {
            assert(s.players[a].id != id);
        }
    }
    assert forall|a: int, b: int|
        0 <= a < b < t.rooms.len() implies
        (#[trigger] t.rooms[a]).code != (#[trigger] t.rooms[b]).code by {
        assert(t.rooms[a] == s.rooms[a]);
        if b < m {
            assert(t.rooms[b] == s.rooms[b]);
            assert(s.rooms[a].code != s.rooms[b].code);
        } else {
            assert(s.rooms[a].code != code);
        }
    }
    assert forall|j: int| 0 <= j < t.rooms.len() implies seats_sound(t, #[trigger] t.rooms[j]) by {
        if j < m {
            let r = s.rooms[j];
            assert(t.rooms[j] == r);
            assert(seats_sound(s, r));
            if r.player1_id is Some {
                lemma_push_player_members(s, newcomer(id, code), r.code, r.player1_id->Some_0);
            }
            if r.player2_id is Some {
                lemma_push_player_members(s, newcomer(id, code), r.code, r.player2_id->Some_0);
            }
        } else {
            assert(t.players[n].id == id && t.players[n].room_code == code);
            assert(member(t, id, code));
        }
    }
}

/// After a player has taken a new id, the old id names nobody and the new id
/// names the player, so that taking it a second time changes nothing.
pub proof fn lemma_renamed_moves_player(s: StoreView, from: Seq<char>, to: Seq<char>)
    requires
        consistent(s),
        has_player(s, from),
        from == to || !has_player(s, to),
    ensures
        has_player(renamed(s, from, to), to),
        player_at(renamed(s, from, to), to) == player_at(s, from),
        from != to ==> !has_player(renamed(s, from, to), from),
        forall|q: Seq<char>|
            q != from && q != to ==> has_player(renamed(s, from, to), q) == has_player(s, q) && (
            has_player(s, q) ==> player_at(renamed(s, from, to), q) == player_at(s, q)),
{
    let t = renamed(s, from, to);
    let k = player_at(s, from);
    lemma_renamed_consistent(s, from, to);
    assert(t.players[k].id == to);
    lemma_player_position(t, to, k);
    if from != to && has_player(t, from) {
        let j = player_at(t, from);
        assert(j != k);
        assert(s.players[j].id == from);
        lemma_player_position(s, from, j);
    }
    assert forall|q: Seq<char>| q != from && q != to implies has_player(t, q) == has_player(s, q)
        && (has_player(s, q) ==> player_at(t, q) == player_at(s, q)) by {
        if has_player(s, q) {
            let j = player_at(s, q);
            assert(t.players[j].id == q);
            lemma_player_position(t, q, j);
        }
        if has_player(t, q) {
            let j = player_at(t, q);
            assert(s.players[j].id == q);
        }
    }
}

} // verus!
