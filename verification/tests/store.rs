use cardstore::model::SESSION_TTL_SECONDS;
use cardstore::hash;
use cardstore::AndyError;
use cardstore::Card;
use cardstore::Database;

fn text(s: &str) -> String {
    s.to_string()
}

fn card(question: &str, answer: &str) -> Card {
    Card { question: text(question), answer: text(answer) }
}

fn store_with_alice() -> Database {
    let mut db = Database::new();
    db.new_user_at(text("alice"), text("alice@example.com"), text("pw123"), 1_000).unwrap();
    db
}

#[test]
fn new_store_has_no_decks() {
    let db = Database::new();
    let listing = db.list_card_decks(7).unwrap();
    assert!(listing.decks.is_empty());
    assert_eq!(db.list_cards(7, 9).unwrap_err(), AndyError::DeckDoesNotExist);
}

#[test]
fn account_is_found_with_derived_id() {
    let db = store_with_alice();
    let user = db.find_user(&text("alice")).unwrap();
    assert_eq!(user.username, "alice");
    assert_eq!(user.user_id, hash("alice"));
    assert_eq!(user.email, "alice@example.com");
    assert_eq!(user.signup_time, 1_000);
    assert!(db.find_user(&text("bob")).is_none());
}

#[test]
fn second_registration_is_a_conflict() {
    let mut db = store_with_alice();
    let again = db.new_user_at(text("alice"), text("other@example.com"), text("x"), 2_000);
    assert_eq!(again, Err(AndyError::Conflict));
    let user = db.find_user(&text("alice")).unwrap();
    assert_eq!(user.email, "alice@example.com");
    assert_eq!(user.signup_time, 1_000);
}

#[test]
fn password_is_stored_as_its_sha256_digest() {
    let mut db = Database::new();
    db.new_user_at(text("carol"), text("carol@example.com"), text("abc"), 5).unwrap();
    let user = db.find_user(&text("carol")).unwrap();
    let expected: [u8; 32] = [
        0xba, 0x78, 0x16, 0xbf, 0x8f, 0x01, 0xcf, 0xea, 0x41, 0x41, 0x40, 0xde, 0x5d, 0xae, 0x22,
        0x23, 0xb0, 0x03, 0x61, 0xa3, 0x96, 0x17, 0x7a, 0x9c, 0xb4, 0x10, 0xff, 0x61, 0xf2, 0x00,
        0x15, 0xad,
    ];
    assert_eq!(user.password_hash, expected);
}

#[test]
fn registration_by_the_clock_stamps_a_recent_time() {
    let mut db = Database::new();
    db.new_user(text("dave"), text("dave@example.com"), text("pw")).unwrap();
    let user = db.find_user(&text("dave")).unwrap();
    assert!(user.signup_time > 1_600_000_000);
}

#[test]
fn card_scenario() {
    let mut db = store_with_alice();
    let user_id = db.find_user(&text("alice")).unwrap().user_id;
    let deck_id = db.new_card_deck_at(user_id, text("Spanish"), 1_001).unwrap();
    assert_eq!(deck_id, hash("Spanish"));
    db.new_card(user_id, deck_id, text("hola"), text("hello")).unwrap();
    assert_eq!(db.list_cards(user_id, deck_id).unwrap().cards, vec![card("hola", "hello")]);
    db.edit_card(user_id, deck_id, 0, text("hola"), text("hi")).unwrap();
    assert_eq!(db.list_cards(user_id, deck_id).unwrap().cards, vec![card("hola", "hi")]);
    db.delete_card(user_id, deck_id, 0).unwrap();
    assert_eq!(db.list_cards(user_id, deck_id).unwrap().cards, Vec::<Card>::new());
}

#[test]
fn new_deck_is_listed_with_no_cards() {
    let mut db = Database::new();
    let deck_id = db.new_card_deck_at(3, text("Verbs"), 50).unwrap();
    let listing = db.list_card_decks(3).unwrap();
    assert_eq!(listing.decks.len(), 1);
    assert_eq!(listing.decks[0].deck_id, deck_id);
    assert_eq!(listing.decks[0].name, "Verbs");
    assert_eq!(listing.decks[0].num_cards, 0);
}

#[test]
fn deck_of_the_same_name_is_a_conflict() {
    let mut db = Database::new();
    db.new_card_deck_at(3, text("Verbs"), 50).unwrap();
    db.new_card(3, hash("Verbs"), text("ser"), text("to be")).unwrap();
    assert_eq!(db.new_card_deck_at(3, text("Verbs"), 60), Err(AndyError::Conflict));
    assert_eq!(db.list_cards(3, hash("Verbs")).unwrap().cards.len(), 1);
    assert!(db.new_card_deck_at(4, text("Verbs"), 60).is_ok());
}

#[test]
fn listing_counts_cards_and_keeps_to_the_owner() {
    let mut db = Database::new();
    let verbs = db.new_card_deck_at(3, text("Verbs"), 50).unwrap();
    let nouns = db.new_card_deck_at(3, text("Nouns"), 51).unwrap();
    db.new_card_deck_at(4, text("Other"), 52).unwrap();
    db.new_card(3, verbs, text("ser"), text("to be")).unwrap();
    db.new_card(3, verbs, text("ir"), text("to go")).unwrap();
    let listing = db.list_card_decks(3).unwrap();
    assert_eq!(listing.decks.len(), 2);
    assert!(listing.decks[0].deck_id < listing.decks[1].deck_id);
    for line in &listing.decks {
        if line.deck_id == verbs {
            assert_eq!(line.name, "Verbs");
            assert_eq!(line.num_cards, 2);
        } else {
            assert_eq!(line.deck_id, nouns);
            assert_eq!(line.name, "Nouns");
            assert_eq!(line.num_cards, 0);
        }
    }
    assert_eq!(db.list_card_decks(4).unwrap().decks.len(), 1);
    assert!(db.list_card_decks(5).unwrap().decks.is_empty());
}

#[test]
fn listing_is_in_ascending_order_of_deck_id() {
    let mut db = Database::new();
    let names = ["a", "b", "c", "d", "e", "f", "g", "h"];
    for name in names {
        db.new_card_deck_at(9, text(name), 1).unwrap();
    }
    let listing = db.list_card_decks(9).unwrap();
    assert_eq!(listing.decks.len(), names.len());
    for pair in listing.decks.windows(2) {
        assert!(pair[0].deck_id < pair[1].deck_id);
    }
    for line in &listing.decks {
        assert_eq!(line.deck_id, hash(&line.name));
    }
}

#[test]
fn deleted_deck_is_gone() {
    let mut db = Database::new();
    let verbs = db.new_card_deck_at(3, text("Verbs"), 50).unwrap();
    let nouns = db.new_card_deck_at(3, text("Nouns"), 51).unwrap();
    db.delete_card_deck(3, verbs).unwrap();
    let listing = db.list_card_decks(3).unwrap();
    assert_eq!(listing.decks.len(), 1);
    assert_eq!(listing.decks[0].deck_id, nouns);
    assert_eq!(db.list_cards(3, verbs).unwrap_err(), AndyError::DeckDoesNotExist);
    assert_eq!(db.delete_card_deck(3, verbs), Err(AndyError::DeckDoesNotExist));
}

#[test]
fn card_operations_on_a_missing_deck_fail() {
    let mut db = Database::new();
    assert_eq!(db.new_card(1, 2, text("q"), text("a")), Err(AndyError::DeckDoesNotExist));
    assert_eq!(db.edit_card(1, 2, 0, text("q"), text("a")), Err(AndyError::DeckDoesNotExist));
    assert_eq!(db.delete_card(1, 2, 0), Err(AndyError::DeckDoesNotExist));
}

#[test]
fn card_index_is_checked() {
    let mut db = Database::new();
    let deck = db.new_card_deck_at(1, text("D"), 0).unwrap();
    assert_eq!(db.edit_card(1, deck, 0, text("q"), text("a")), Err(AndyError::CardIndexOutOfRange));
    assert_eq!(db.delete_card(1, deck, 0), Err(AndyError::CardIndexOutOfRange));
    db.new_card(1, deck, text("q0"), text("a0")).unwrap();
    db.new_card(1, deck, text("q1"), text("a1")).unwrap();
    assert_eq!(db.edit_card(1, deck, 2, text("q"), text("a")), Err(AndyError::CardIndexOutOfRange));
    assert_eq!(db.delete_card(1, deck, u64::MAX), Err(AndyError::CardIndexOutOfRange));
    assert_eq!(db.list_cards(1, deck).unwrap().cards, vec![card("q0", "a0"), card("q1", "a1")]);
}

#[test]
fn deleting_a_card_moves_later_cards_up() {
    let mut db = Database::new();
    let deck = db.new_card_deck_at(1, text("D"), 0).unwrap();
    for i in 0..4 {
        db.new_card(1, deck, format!("q{}", i), format!("a{}", i)).unwrap();
    }
    db.delete_card(1, deck, 1).unwrap();
    assert_eq!(
        db.list_cards(1, deck).unwrap().cards,
        vec![card("q0", "a0"), card("q2", "a2"), card("q3", "a3")]
    );
    db.edit_card(1, deck, 2, text("Q"), text("A")).unwrap();
    assert_eq!(
        db.list_cards(1, deck).unwrap().cards,
        vec![card("q0", "a0"), card("q2", "a2"), card("Q", "A")]
    );
}

#[test]
fn many_appends_lose_no_card() {
    let mut db = Database::new();
    let deck = db.new_card_deck_at(1, text("D"), 0).unwrap();
    let other = db.new_card_deck_at(1, text("E"), 0).unwrap();
    let n = 200;
    for i in 0..n {
        assert_eq!(db.new_card(1, deck, format!("q{}", i), format!("a{}", i)), Ok(()));
    }
    let cards = db.list_cards(1, deck).unwrap().cards;
    assert_eq!(cards.len(), n);
    for i in 0..n {
        assert_eq!(cards[i], card(&format!("q{}", i), &format!("a{}", i)));
    }
    assert!(db.list_cards(1, other).unwrap().cards.is_empty());
}

#[test]
fn login_with_wrong_password_opens_no_session() {
    let mut db = store_with_alice();
    let refused = db.login_at(text("alice@example.com"), text("wrong"), 2_000);
    assert_eq!(refused.unwrap_err(), AndyError::WrongPassword);
    let accepted = db.login_at(text("alice@example.com"), text("pw123"), 2_000).unwrap();
    let mut fresh = store_with_alice();
    fresh.login_at(text("alice@example.com"), text("wrong"), 2_000).unwrap_err();
    assert!(fresh.stored_session(&accepted.access_token).is_none());
    assert_eq!(
        fresh.validate_token_at(accepted.access_token, 2_000),
        Err(AndyError::BadAccessToken)
    );
}

#[test]
fn login_with_unknown_email_fails() {
    let mut db = store_with_alice();
    let refused = db.login_at(text("nobody@example.com"), text("pw123"), 2_000);
    assert_eq!(refused.unwrap_err(), AndyError::UserDoesNotExist);
}

#[test]
fn login_token_names_the_account_until_it_expires() {
    let mut db = store_with_alice();
    let answer = db.login_at(text("alice@example.com"), text("pw123"), 2_000).unwrap();
    assert_eq!(answer.user_id, hash("alice"));
    assert_eq!(answer.access_token.len(), 16 + 64);
    assert_eq!(db.validate_token_at(answer.access_token.clone(), 2_000), Ok(hash("alice")));
    let last = 2_000 + SESSION_TTL_SECONDS - 1;
    assert_eq!(db.validate_token_at(answer.access_token.clone(), last), Ok(hash("alice")));
    assert_eq!(
        db.validate_token_at(answer.access_token.clone(), last + 1),
        Err(AndyError::BadAccessToken)
    );
    assert!(db.stored_session(&answer.access_token).is_none());
    assert_eq!(
        db.validate_token_at(answer.access_token, 2_000),
        Err(AndyError::BadAccessToken)
    );
}

#[test]
fn unknown_token_is_refused() {
    let mut db = store_with_alice();
    assert_eq!(db.validate_token_at(text("00ff"), 0), Err(AndyError::BadAccessToken));
    assert_eq!(db.validate_token(text("")), Err(AndyError::BadAccessToken));
}

#[test]
fn login_by_the_clock_gives_a_token_that_is_valid_now() {
    let mut db = store_with_alice();
    let answer = db.login(text("alice@example.com"), text("pw123")).unwrap();
    assert_eq!(db.validate_token(answer.access_token), Ok(hash("alice")));
}

#[test]
fn session_near_the_end_of_time_never_expires_early() {
    let mut db = store_with_alice();
    let answer = db.login_at(text("alice@example.com"), text("pw123"), u64::MAX - 5).unwrap();
    assert_eq!(db.validate_token_at(answer.access_token.clone(), u64::MAX - 1), Ok(hash("alice")));
    assert_eq!(
        db.validate_token_at(answer.access_token, u64::MAX),
        Err(AndyError::BadAccessToken)
    );
}

#[test]
fn logout_ends_the_session() {
    let mut db = store_with_alice();
    let answer = db.login_at(text("alice@example.com"), text("pw123"), 2_000).unwrap();
    assert_eq!(db.logout(answer.access_token.clone()), Ok(()));
    assert_eq!(db.logout(answer.access_token.clone()), Err(AndyError::BadAccessToken));
    assert_eq!(
        db.validate_token_at(answer.access_token, 2_001),
        Err(AndyError::BadAccessToken)
    );
}

#[test]
fn change_password_needs_the_old_one() {
    let mut db = store_with_alice();
    assert_eq!(
        db.change_password(text("alice@example.com"), text("nope"), text("new")),
        Err(AndyError::WrongPassword)
    );
    assert_eq!(
        db.change_password(text("nobody@example.com"), text("pw123"), text("new")),
        Err(AndyError::UserDoesNotExist)
    );
    assert_eq!(db.change_password(text("alice@example.com"), text("pw123"), text("new")), Ok(()));
    assert_eq!(
        db.login_at(text("alice@example.com"), text("pw123"), 3_000).unwrap_err(),
        AndyError::WrongPassword
    );
    assert!(db.login_at(text("alice@example.com"), text("new"), 3_000).is_ok());
    let user = db.find_user(&text("alice")).unwrap();
    assert_eq!(user.email, "alice@example.com");
    assert_eq!(user.signup_time, 1_000);
}

#[test]
fn delete_user_takes_the_account_and_its_decks() {
    let mut db = store_with_alice();
    db.new_user_at(text("bob"), text("bob@example.com"), text("pw"), 1_001).unwrap();
    let alice = hash("alice");
    let bob = hash("bob");
    let a1 = db.new_card_deck_at(alice, text("A1"), 1).unwrap();
    db.new_card_deck_at(alice, text("A2"), 2).unwrap();
    let b1 = db.new_card_deck_at(bob, text("B1"), 3).unwrap();
    db.new_card(bob, b1, text("q"), text("a")).unwrap();
    assert_eq!(
        db.delete_user(text("alice@example.com"), text("bad")),
        Err(AndyError::WrongPassword)
    );
    assert_eq!(db.list_card_decks(alice).unwrap().decks.len(), 2);
    assert_eq!(
        db.delete_user(text("nobody@example.com"), text("pw123")),
        Err(AndyError::UserDoesNotExist)
    );
    assert_eq!(db.delete_user(text("alice@example.com"), text("pw123")), Ok(()));
    assert!(db.find_user(&text("alice")).is_none());
    assert!(db.list_card_decks(alice).unwrap().decks.is_empty());
    assert_eq!(db.list_cards(alice, a1).unwrap_err(), AndyError::DeckDoesNotExist);
    assert!(db.find_user(&text("bob")).is_some());
    assert_eq!(db.list_cards(bob, b1).unwrap().cards, vec![card("q", "a")]);
    assert_eq!(
        db.login_at(text("alice@example.com"), text("pw123"), 9).unwrap_err(),
        AndyError::UserDoesNotExist
    );
}

#[test]
fn shared_email_stands_for_the_account_with_the_smallest_id() {
    let mut db = Database::new();
    db.new_user_at(text("first"), text("shared@example.com"), text("one"), 1).unwrap();
    db.new_user_at(text("second"), text("shared@example.com"), text("two"), 2).unwrap();
    let (low, low_password, high_password) = if hash("first") < hash("second") {
        (hash("first"), "one", "two")
    } else {
        (hash("second"), "two", "one")
    };
    let answer = db.login_at(text("shared@example.com"), text(low_password), 5).unwrap();
    assert_eq!(answer.user_id, low);
    assert_eq!(
        db.login_at(text("shared@example.com"), text(high_password), 5).unwrap_err(),
        AndyError::WrongPassword
    );
}

#[test]
fn stored_records_load_into_an_equal_store() {
    let mut db = store_with_alice();
    let alice = hash("alice");
    let deck = db.new_card_deck_at(alice, text("Spanish"), 7).unwrap();
    db.new_card(alice, deck, text("hola"), text("hello")).unwrap();
    let answer = db.login_at(text("alice@example.com"), text("pw123"), 2_000).unwrap();

    let user_bytes = db.stored_user(&text("alice")).unwrap();
    let deck_bytes = db.stored_deck(alice, deck).unwrap();
    let session_bytes = db.stored_session(&answer.access_token).unwrap();
    assert!(db.stored_user(&text("bob")).is_none());
    assert!(db.stored_deck(alice, deck.wrapping_add(1)).is_none());

    let mut copy = Database::new();
    assert_eq!(copy.load_user(&user_bytes), Ok(()));
    assert_eq!(copy.load_deck(alice, deck, &deck_bytes), Ok(()));
    assert_eq!(copy.load_session(&session_bytes), Ok(()));
    assert_eq!(copy.find_user(&text("alice")), db.find_user(&text("alice")));
    assert_eq!(copy.list_cards(alice, deck).unwrap(), db.list_cards(alice, deck).unwrap());
    assert_eq!(copy.list_card_decks(alice).unwrap(), db.list_card_decks(alice).unwrap());
    assert_eq!(copy.validate_token_at(answer.access_token, 2_001), Ok(alice));

    assert_eq!(copy.load_user(&user_bytes), Err(AndyError::Conflict));
    assert_eq!(copy.load_deck(alice, deck, &deck_bytes), Err(AndyError::Conflict));
    assert_eq!(copy.load_session(&session_bytes), Ok(()));
}

#[test]
fn corrupt_records_are_refused_and_change_nothing() {
    let mut db = store_with_alice();
    let alice = hash("alice");
    let deck = db.new_card_deck_at(alice, text("Spanish"), 7).unwrap();
    let user_bytes = db.stored_user(&text("alice")).unwrap();
    let deck_bytes = db.stored_deck(alice, deck).unwrap();

    let mut copy = Database::new();
    assert_eq!(copy.load_user(&user_bytes[1..]), Err(AndyError::EncodingCorruption));
    assert_eq!(copy.load_user(&[]), Err(AndyError::EncodingCorruption));
    assert_eq!(copy.load_deck(alice, deck, &deck_bytes[..3]), Err(AndyError::EncodingCorruption));
    assert_eq!(
        copy.load_deck(alice, deck.wrapping_add(1), &deck_bytes),
        Err(AndyError::EncodingCorruption)
    );
    assert_eq!(copy.load_session(&[1, 2, 3]), Err(AndyError::EncodingCorruption));
    let mut wrong_id = user_bytes.clone();
    let id_at = 8 + "alice".len();
    wrong_id[id_at] ^= 1;
    assert_eq!(copy.load_user(&wrong_id), Err(AndyError::EncodingCorruption));
    assert!(copy.find_user(&text("alice")).is_none());
    assert!(copy.list_card_decks(alice).unwrap().decks.is_empty());
}

#[test]
fn two_logins_in_one_second_get_two_sessions() {
    let mut db = store_with_alice();
    let first = db.login_at(text("alice@example.com"), text("pw123"), 5).unwrap();
    let second = db.login_at(text("alice@example.com"), text("pw123"), 5).unwrap();
    let third = db.login_at(text("alice@example.com"), text("pw123"), 5).unwrap();
    assert_ne!(first.access_token, second.access_token);
    assert_ne!(first.access_token, third.access_token);
    assert_ne!(second.access_token, third.access_token);
    assert!(db.stored_session(&first.access_token).is_some());
    assert!(db.stored_session(&second.access_token).is_some());
    assert!(db.stored_session(&third.access_token).is_some());
    assert_eq!(db.logout(first.access_token.clone()), Ok(()));
    assert_eq!(db.validate_token_at(first.access_token.clone(), 6), Err(AndyError::BadAccessToken));
    assert_eq!(db.validate_token_at(second.access_token.clone(), 6), Ok(hash("alice")));
    assert_eq!(db.validate_token_at(third.access_token.clone(), 6), Ok(hash("alice")));
    let again = db.login_at(text("alice@example.com"), text("pw123"), 5).unwrap();
    assert_eq!(again.access_token, first.access_token);
    assert_eq!(db.validate_token_at(again.access_token, 6), Ok(hash("alice")));
    assert_eq!(db.validate_token_at(second.access_token, 6), Ok(hash("alice")));
}

#[test]
fn login_touches_no_other_session() {
    let mut db = store_with_alice();
    db.new_user_at(text("bob"), text("bob@example.com"), text("pw"), 1_001).unwrap();
    let bob = db.login_at(text("bob@example.com"), text("pw"), 7).unwrap();
    let before = db.stored_session(&bob.access_token).unwrap();
    let alice = db.login_at(text("alice@example.com"), text("pw123"), 7).unwrap();
    assert_ne!(alice.access_token, bob.access_token);
    assert_eq!(db.stored_session(&bob.access_token).unwrap(), before);
    assert_eq!(db.validate_token_at(bob.access_token, 8), Ok(hash("bob")));
    assert_eq!(db.validate_token_at(alice.access_token, 8), Ok(hash("alice")));
}

#[test]
fn check_token_answers_without_removing() {
    let mut db = store_with_alice();
    let answer = db.login_at(text("alice@example.com"), text("pw123"), 2_000).unwrap();
    let token = answer.access_token;
    assert_eq!(db.check_token_at(&token, 2_001), Ok(hash("alice")));
    let late = 2_000 + SESSION_TTL_SECONDS;
    assert_eq!(db.check_token_at(&token, late), Err(AndyError::BadAccessToken));
    assert!(db.stored_session(&token).is_some());
    assert_eq!(db.check_token_at(&token, 2_001), Ok(hash("alice")));
    assert_eq!(db.check_token_at(&text("none"), 2_001), Err(AndyError::BadAccessToken));
    assert_eq!(db.validate_token_at(token.clone(), late), Err(AndyError::BadAccessToken));
    assert_eq!(db.check_token_at(&token, 2_001), Err(AndyError::BadAccessToken));
}

#[test]
fn deck_info_is_the_listing_line_of_one_deck() {
    let mut db = Database::new();
    let verbs = db.new_card_deck_at(3, text("Verbs"), 50).unwrap();
    db.new_card(3, verbs, text("ser"), text("to be")).unwrap();
    let line = db.get_deck_info(3, verbs).unwrap();
    assert_eq!(line.deck_id, verbs);
    assert_eq!(line.name, "Verbs");
    assert_eq!(line.num_cards, 1);
    assert_eq!(db.list_card_decks(3).unwrap().decks, vec![line]);
    assert_eq!(db.get_deck_info(4, verbs).unwrap_err(), AndyError::DeckDoesNotExist);
}
