//! The rendezvous before a match: every member of the room is asked for its
//! board, and the match may start only if every one of them answered with a
//! board of valid cell codes.

use vstd::prelude::*;
use crate::board::{Board, Grid};
use crate::game::add_board;
use crate::rules::with_board;
use crate::store::{grid_of, Store, StoreView};
use crate::wire::valid_codes;

verus! {

/// The model of one member's answer: who answered, and the board if one
/// came.
pub type Reply = (Seq<char>, Option<Grid>);

/// The model of a list of answers.
pub open spec fn replies_view(replies: Seq<(String, Option<Board>)>) -> Seq<Reply> {
    Seq::new(replies.len(), |i: int| (replies[i].0@, grid_of(replies[i].1)))
}

/// The answer brought a board that can be stored.
pub open spec fn usable(reply: Reply) -> bool {
    reply.1 matches Some(g) && valid_codes(g)
}

/// Every answer of the list is usable.
pub open spec fn all_usable(replies: Seq<Reply>) -> bool {
    forall|i: int| 0 <= i < replies.len() ==> usable(#[trigger] replies[i])
}

/// The store after the usable answers among the first `n` have been stored,
/// one after the other.
pub open spec fn uploaded(s: StoreView, replies: Seq<Reply>, n: nat) -> StoreView
    decreases n,
{
    if n == 0 {
        s
    } else {
        let before = uploaded(s, replies, (n - 1) as nat);
        let reply = replies[n - 1];
        if usable(reply) {
            with_board(before, reply.0, reply.1->Some_0)
        } else {
            before
        }
    }
}

/// Takes in the answers of the members. Each usable board is stored for the
/// member who sent it; the result tells whether every answer was usable,
/// which is when the match may start.
pub fn collect_boards(
    replies: &Vec<(String, Option<Board>)>,
    store: &mut Store,
) -> (complete: bool)
    requires
        old(store).wf(),
    ensures
        final(store).wf(),
        final(store)@ == uploaded(old(store)@, replies_view(replies@), replies@.len()),
        complete == all_usable(replies_view(replies@)),
{
    let ghost start = store@;
    let ghost answers = replies_view(replies@);
    let mut complete = true;
    let mut n: usize = 0;
    while n < replies.len()
        invariant
            n <= replies.len(),
            answers == replies_view(replies@),
            store.wf(),
            store@ == uploaded(start, answers, n as nat),
            complete == forall|i: int| 0 <= i < n ==> usable(#[trigger] answers[i]),
        decreases replies.len() - n,
    {
        let ghost reply = answers[n as int];
        assert(reply == (replies@[n as int].0@, grid_of(replies@[n as int].1)));
        let stored = match replies[n].1 {
            Some(board) => {
                if board.validate_syntax() {
                    let _ = add_board(replies[n].0.as_str(), board, store);
                    true
                } else {
                    false
                }
            },
            None => false,
        };
        assert(stored == usable(reply));
        if !stored {
            complete = false;
        }
        n += 1;
    }
    complete
}

/// Decides whether the match may start after the rendezvous. Each usable
/// board is stored for the member who sent it. The match may start only if
/// as many members answered as were asked and every answer was usable: a
/// missing or failed answer never starts a match.
pub fn rendezvous_complete(
    replies: &Vec<(String, Option<Board>)>,
    expected: usize,
    store: &mut Store,
) -> (go: bool)
    requires
        old(store).wf(),
    ensures
        final(store).wf(),
        final(store)@ == uploaded(old(store)@, replies_view(replies@), replies@.len()),
        go == (replies@.len() == expected && all_usable(replies_view(replies@))),
{
    let complete = collect_boards(replies, store);
    complete && replies.len() == expected
}

} // verus!
