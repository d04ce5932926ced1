//! Room codes and their allocation.

use vstd::prelude::*;
use vstd::string::{StrSliceExecFns, StringSliceAdditionalSpecFns};
use crate::game::{Error, Refusal, ROOM_CODE_LENGTH};
use crate::random::random_alphanumeric;
use crate::store::{has_room, Store, StoreView};

verus! {

/// Number of draws after which the allocator gives up.
pub const CODE_ATTEMPTS: u32 = 50;

/// The character may stand in a room code: a digit or an upper-case letter.
pub open spec fn is_code_char(c: char) -> bool {
    ||| 0x30 <= c as u32 <= 0x39
    ||| 0x41 <= c as u32 <= 0x5a
}

/// The text has the form of a room code.
pub open spec fn is_room_code(code: Seq<char>) -> bool {
    &&& code.len() == ROOM_CODE_LENGTH
    &&& forall|i: int| 0 <= i < code.len() ==> is_code_char(#[trigger] code[i])
}

/// Whether the text is as long as a room code: four bytes in UTF-8, which
/// for the letters and digits of a code is four characters. A join request
/// with a code of another length names no room and needs no lookup.
pub fn has_code_length(code: &str) -> (r: bool)
    ensures
        r == (code.spec_bytes().len() == ROOM_CODE_LENGTH),
{
    code.as_bytes().len() == ROOM_CODE_LENGTH
}

/// Whether the text has the form of a room code.
pub fn is_code_text(code: &str) -> (r: bool)
    ensures
        r == is_room_code(code@),
{
    if code.unicode_len() != ROOM_CODE_LENGTH {
        return false;
    }
    let mut n: usize = 0;
    while n < ROOM_CODE_LENGTH
        invariant
            n <= ROOM_CODE_LENGTH,
            code@.len() == ROOM_CODE_LENGTH,
            forall|i: int| 0 <= i < n ==> is_code_char(#[trigger] code@[i]),
        decreases ROOM_CODE_LENGTH - n,
    {
        let c = code.get_char(n) as u32;
        if !((0x30 <= c && c <= 0x39) || (0x41 <= c && c <= 0x5a)) {
            assert(!is_code_char(code@[n as int]));
            return false;
        }
        n += 1;
    }
    true
}

/// The upper-case form of an ASCII letter; any other byte is kept.
pub open spec fn ascii_upper(c: u8) -> u8 {
    if 0x61 <= c <= 0x7a {
        (c - 0x20) as u8
    } else {
        c
    }
}

/// Turns an ASCII lower-case letter into its upper-case form.
pub fn to_ascii_upper(c: u8) -> (r: u8)
    ensures
        r == ascii_upper(c),
{
    if 0x61 <= c && c <= 0x7a {
        c - 0x20
    } else {
        c
    }
}

/// Draws a room code: four random letters or digits, letters in upper case.
pub fn random_code() -> (code: String)
    ensures
        is_room_code(code@),
{
    let mut code = String::new();
    let mut n: usize = 0;
    while n < ROOM_CODE_LENGTH
        invariant
            n <= ROOM_CODE_LENGTH,
            code@.len() == n,
            forall|i: int| 0 <= i < code@.len() ==> is_code_char(#[trigger] code@[i]),
        decreases ROOM_CODE_LENGTH - n,
    {
        let drawn = random_alphanumeric();
        let c = to_ascii_upper(drawn) as char;
        code.push(c);
        n += 1;
    }
    code
}

/// Draws `count` room codes.
pub fn draw_codes(count: u32) -> (codes: Vec<String>)
    ensures
        codes@.len() == count,
        forall|i: int| 0 <= i < codes@.len() ==> is_room_code((#[trigger] codes@[i])@),
{
    let mut codes: Vec<String> = Vec::new();
    let mut n: u32 = 0;
    while n < count
        invariant
            n <= count,
            codes@.len() == n,
            forall|i: int| 0 <= i < codes@.len() ==> is_room_code((#[trigger] codes@[i])@),
        decreases count - n,
    {
        codes.push(random_code());
        n += 1;
    }
    codes
}

/// The candidate at position `k` is free and every candidate before it is
/// taken by a room.
pub open spec fn first_free_at(s: StoreView, candidates: Seq<String>, k: int) -> bool {
    &&& 0 <= k < candidates.len()
    &&& !has_room(s, candidates[k]@)
    &&& forall|j: int| 0 <= j < k ==> has_room(s, (#[trigger] candidates[j])@)
}

/// Every candidate is taken by a room.
pub open spec fn all_taken(s: StoreView, candidates: Seq<String>) -> bool {
    forall|j: int| 0 <= j < candidates.len() ==> has_room(s, (#[trigger] candidates[j])@)
}

/// Picks the first of the candidates that no room carries and gives its
/// position. The pick fails if and only if every candidate is taken.
pub fn first_free_code(candidates: &Vec<String>, store: &Store) -> (r: Result<usize, Error>)
    ensures
        match r {
            Ok(k) => first_free_at(store@, candidates@, k as int),
            Err(e) => e@ == Refusal::CodeGenerationLimitReached && all_taken(store@, candidates@),
        },
{
    let mut k: usize = 0;
    while k < candidates.len()
        invariant
            k <= candidates@.len(),
            forall|j: int| 0 <= j < k ==> has_room(store@, (#[trigger] candidates@[j])@),
        decreases candidates@.len() - k,
    {
        if store.find_room(&candidates[k]).is_none() {
            return Ok(k);
        }
        k += 1;
    }
    Err(Error::CodeGenerationLimitReached)
}

/// Some room carries a code of the proper form. Only such a room can stand
/// in the way of a drawn code.
pub open spec fn holds_room_code(s: StoreView) -> bool {
    exists|k: int| 0 <= k < s.rooms.len() && is_room_code((#[trigger] s.rooms[k]).code)
}

/// Allocates a code that no room carries. `CODE_ATTEMPTS` candidates are
/// drawn at random and the first that is free is taken; the allocation fails
/// if every one of them is taken, which cannot happen while no room carries a
/// code of the proper form.
pub fn generate_code(store: &Store) -> (r: Result<String, Error>)
    ensures
        r matches Ok(code) ==> is_room_code(code@) && !has_room(store@, code@),
        r matches Err(e) ==> e@ == Refusal::CodeGenerationLimitReached,
        !holds_room_code(store@) ==> r is Ok,
{
    let candidates = draw_codes(CODE_ATTEMPTS);
    match first_free_code(&candidates, store) {
        Ok(k) => Ok(candidates[k].clone()),
        Err(e) => {
            proof {
                // the first candidate is taken by a room, and it has the proper form
                let c = candidates@[0]@;
                assert(has_room(store@, c));
                let j = choose|j: int|
                    0 <= j < store@.rooms.len() && (#[trigger] store@.rooms[j]).code == c;
                assert(is_room_code(store@.rooms[j].code));
            }
            Err(e)
        },
    }
}

} // verus!
