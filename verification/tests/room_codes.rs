use battleship::code::{
    draw_codes, first_free_code, generate_code, has_code_length, is_code_text, random_code,
    to_ascii_upper, CODE_ATTEMPTS,
};
use battleship::game::{Error, Status, ROOM_CODE_LENGTH};
use battleship::store::{Room, Store};

fn is_code(code: &str) -> bool {
    code.chars().count() == 4 && code.chars().all(|c| c.is_ascii_digit() || c.is_ascii_uppercase())
}

#[test]
fn code_constants() {
    assert_eq!(ROOM_CODE_LENGTH, 4);
    assert_eq!(CODE_ATTEMPTS, 50);
}

#[test]
fn upper_case_of_ascii_bytes() {
    assert_eq!(to_ascii_upper(b'a'), b'A');
    assert_eq!(to_ascii_upper(b'z'), b'Z');
    assert_eq!(to_ascii_upper(b'm'), b'M');
    assert_eq!(to_ascii_upper(b'A'), b'A');
    assert_eq!(to_ascii_upper(b'Z'), b'Z');
    assert_eq!(to_ascii_upper(b'0'), b'0');
    assert_eq!(to_ascii_upper(b'9'), b'9');
    assert_eq!(to_ascii_upper(b'`'), b'`');
    assert_eq!(to_ascii_upper(b'{'), b'{');
    for c in 0..=255u8 {
        assert_eq!(to_ascii_upper(c), c.to_ascii_uppercase());
    }
}

#[test]
fn random_codes_are_four_upper_case_letters_or_digits() {
    for _ in 0..2000 {
        let code = random_code();
        assert!(is_code(&code), "bad code {code:?}");
    }
}

#[test]
fn random_codes_vary() {
    let first = random_code();
    assert!((0..100).any(|_| random_code() != first));
    // digits and letters both occur
    let many: String = (0..200).map(|_| random_code()).collect();
    assert!(many.chars().any(|c| c.is_ascii_digit()));
    assert!(many.chars().any(|c| c.is_ascii_uppercase()));
}

#[test]
fn allocation_succeeds_on_an_empty_store() {
    let store = Store::new();
    let code = generate_code(&store).unwrap();
    assert!(is_code(&code));
}

#[test]
fn allocated_code_is_unused() {
    let mut store = Store::new();
    for _ in 0..300 {
        let code = generate_code(&store).unwrap();
        assert!(store.rooms.iter().all(|r| r.code != code));
        store.rooms.push(Room { code, player1_id: None, player2_id: None, stat: Status::Waiting });
    }
    assert!(store.is_wf());
}

#[test]
fn allocation_gives_up_when_every_code_is_taken() {
    let symbols: Vec<char> = ('0'..='9').chain('A'..='Z').collect();
    let mut store = Store::new();
    for a in &symbols {
        for b in &symbols {
            for c in &symbols {
                for d in &symbols {
                    let code: String = [*a, *b, *c, *d].iter().collect();
                    store.rooms.push(Room {
                        code,
                        player1_id: None,
                        player2_id: None,
                        stat: Status::Waiting,
                    });
                }
            }
        }
    }
    assert_eq!(store.rooms.len(), 36 * 36 * 36 * 36);
    assert_eq!(generate_code(&store), Err(Error::CodeGenerationLimitReached));
}

#[test]
fn code_length_is_counted_in_bytes() {
    assert!(has_code_length("AB12"));
    assert!(has_code_length("ab12"));
    assert!(has_code_length("    "));
    // two characters of two bytes each, and one of three bytes beside a letter
    assert!(has_code_length("äö"));
    assert!(has_code_length("a€"));
    assert!(!has_code_length(""));
    assert!(!has_code_length("ABC"));
    assert!(!has_code_length("ABCDE"));
    // four characters, eight bytes
    assert!(!has_code_length("äöüß"));
    assert!(!has_code_length("é"));
}

#[test]
fn code_form_is_four_digits_or_upper_case_letters() {
    assert!(is_code_text("AB12"));
    assert!(is_code_text("0000"));
    assert!(is_code_text("ZZZZ"));
    assert!(is_code_text("A0Z9"));
    assert!(!is_code_text("ab12"));
    assert!(!is_code_text("AB1z"));
    assert!(!is_code_text("AB1"));
    assert!(!is_code_text("AB123"));
    assert!(!is_code_text(""));
    assert!(!is_code_text("AB 1"));
    assert!(!is_code_text("AB1/"));
    assert!(!is_code_text("AB1:"));
    assert!(!is_code_text("AB1@"));
    assert!(!is_code_text("AB1["));
    assert!(!is_code_text("ÄB12"));
    for _ in 0..200 {
        assert!(is_code_text(&random_code()));
    }
}

#[test]
fn drawn_candidates_are_room_codes() {
    assert_eq!(draw_codes(0), Vec::<String>::new());
    let codes = draw_codes(CODE_ATTEMPTS);
    assert_eq!(codes.len(), 50);
    assert!(codes.iter().all(|c| is_code(c)));
    assert_eq!(draw_codes(7).len(), 7);
}

fn room(code: &str) -> Room {
    Room { code: code.to_string(), player1_id: None, player2_id: None, stat: Status::Waiting }
}

fn texts(codes: &[&str]) -> Vec<String> {
    codes.iter().map(|c| c.to_string()).collect()
}

#[test]
fn first_free_candidate_is_picked() {
    let mut store = Store::new();
    store.rooms.push(room("AAAA"));
    store.rooms.push(room("BBBB"));
    store.rooms.push(room("CCCC"));
    assert_eq!(first_free_code(&texts(&["DDDD", "AAAA"]), &store), Ok(0));
    assert_eq!(first_free_code(&texts(&["AAAA", "DDDD", "EEEE"]), &store), Ok(1));
    assert_eq!(first_free_code(&texts(&["CCCC", "BBBB", "AAAA", "BBBB", "EEEE"]), &store), Ok(4));
    // a candidate is compared as it is
    assert_eq!(first_free_code(&texts(&["AAAA", "aaaa"]), &store), Ok(1));
    assert_eq!(first_free_code(&texts(&["XXXX"]), &Store::new()), Ok(0));
}

#[test]
fn pick_fails_exactly_when_every_candidate_is_taken() {
    let mut store = Store::new();
    store.rooms.push(room("AAAA"));
    store.rooms.push(room("BBBB"));
    assert_eq!(
        first_free_code(&texts(&["AAAA", "BBBB", "AAAA"]), &store),
        Err(Error::CodeGenerationLimitReached)
    );
    assert_eq!(first_free_code(&texts(&["BBBB"]), &store), Err(Error::CodeGenerationLimitReached));
    // no candidate, nothing to pick
    assert_eq!(first_free_code(&Vec::new(), &store), Err(Error::CodeGenerationLimitReached));
    assert_eq!(first_free_code(&Vec::new(), &Store::new()), Err(Error::CodeGenerationLimitReached));
    // fifty taken candidates fail, a free one at the end succeeds
    let mut many = texts(&["AAAA"; 50]);
    assert_eq!(first_free_code(&many, &store), Err(Error::CodeGenerationLimitReached));
    many[49] = "CCCC".to_string();
    assert_eq!(first_free_code(&many, &store), Ok(49));
}

#[test]
fn allocation_succeeds_while_no_room_carries_a_proper_code() {
    let mut store = Store::new();
    for code in ["", "abcd", "ABC", "ABCDE", "AB-1", "äöüß"] {
        store.rooms.push(room(code));
    }
    for _ in 0..50 {
        let code = generate_code(&store).unwrap();
        assert!(is_code(&code));
    }
}
