use cardstore::token::session_token;
use cardstore::token::to_hex;
use cardstore::clock::seconds_since_epoch;
use cardstore::get_current_unix_time_seconds;
use cardstore::hash;
use cardstore::AndyError;
use cardstore::Card;
use cardstore::CardDeck;
use cardstore::Session;
use cardstore::UserEntry;
use sha2::Digest;
use std::hash::Hash;
use std::hash::Hasher;

fn sample_deck() -> CardDeck {
    CardDeck {
        creation_time: 1,
        cards: vec![Card { question: "q".to_string(), answer: "a".to_string() }],
        name: "ab".to_string(),
    }
}

fn sample_user() -> UserEntry {
    let mut password_hash = [0u8; 32];
    for (i, byte) in password_hash.iter_mut().enumerate() {
        *byte = i as u8;
    }
    UserEntry {
        username: "zoë".to_string(),
        user_id: 0x0102_0304_0506_0708,
        email: "z@example.com".to_string(),
        password_hash,
        signup_time: 99,
    }
}

#[test]
fn hash_is_the_default_hash_of_the_string() {
    for name in ["", "alice", "Spanish", "zoë", "a much longer deck name, with spaces"] {
        let mut hasher = std::collections::hash_map::DefaultHasher::new();
        name.to_string().hash(&mut hasher);
        assert_eq!(hash(name), hasher.finish());
    }
}

#[test]
fn hash_is_repeatable() {
    assert_eq!(hash("alice"), hash("alice"));
    assert_eq!(hash(&String::from("alice")), hash("alice"));
    assert_ne!(hash("alice"), hash("alicf"));
}

#[test]
fn clock_reads_a_time_after_2020() {
    assert!(get_current_unix_time_seconds() > 1_577_836_800);
}

#[test]
fn clock_before_the_epoch_reads_as_zero() {
    assert_eq!(seconds_since_epoch(None), 0);
    assert_eq!(seconds_since_epoch(Some(0)), 0);
    assert_eq!(seconds_since_epoch(Some(1_700_000_000)), 1_700_000_000);
    assert_eq!(seconds_since_epoch(Some(u64::MAX)), u64::MAX);
}

#[test]
fn hex_of_a_digest() {
    let mut digest = [0u8; 32];
    digest[0] = 0x01;
    digest[1] = 0xab;
    digest[31] = 0xf0;
    let text = to_hex(&digest);
    assert_eq!(text.len(), 64);
    assert_eq!(&text[..4], "01ab");
    assert_eq!(&text[4..62], "0".repeat(58));
    assert_eq!(&text[62..], "f0");
}

#[test]
fn hex_of_a_serial_number() {
    assert_eq!(to_hex(&[]), "");
    assert_eq!(to_hex(&[0x00, 0x09, 0x0a, 0x10, 0xff]), "00090a10ff");
    assert_eq!(to_hex(&0x0102_0304_0506_0708u64.to_le_bytes()), "0807060504030201");
}

#[test]
fn token_is_the_serial_number_and_the_digest_of_the_seed() {
    let user = sample_user();
    let now: u64 = 0x1122_3344_5566_7788;
    for serial in [0u64, 1, 255, 256, u64::MAX] {
        let mut seed = Vec::new();
        seed.extend_from_slice(&user.password_hash);
        seed.extend_from_slice(&user.user_id.to_le_bytes());
        seed.extend_from_slice(&now.to_le_bytes());
        seed.extend_from_slice(&serial.to_le_bytes());
        let digest: [u8; 32] = sha2::Sha256::digest(&seed).into();
        let expected = format!("{}{}", to_hex(&serial.to_le_bytes()), to_hex(&digest));
        assert_eq!(session_token(&user, now, serial), expected);
        assert_eq!(expected.len(), 80);
    }
    assert_ne!(session_token(&user, now, 0), session_token(&user, now + 1, 0));
    assert_ne!(session_token(&user, now, 0), session_token(&user, now, 1));
    assert_eq!(&session_token(&user, now, 1)[..16], "0100000000000000");
}

#[test]
fn deck_bytes_are_exact() {
    let expected: Vec<u8> = vec![
        1, 0, 0, 0, 0, 0, 0, 0, // creation time
        2, 0, 0, 0, 0, 0, 0, 0, b'a', b'b', // name
        1, 0, 0, 0, 0, 0, 0, 0, // number of cards
        1, 0, 0, 0, 0, 0, 0, 0, b'q', // question
        1, 0, 0, 0, 0, 0, 0, 0, b'a', // answer
    ];
    assert_eq!(sample_deck().as_bytes(), expected);
    assert_eq!(CardDeck::from_bytes(&expected), Ok(sample_deck()));
}

#[test]
fn empty_deck_bytes_are_exact() {
    let deck = CardDeck { creation_time: 0x0102, cards: vec![], name: String::new() };
    let expected: Vec<u8> = vec![
        2, 1, 0, 0, 0, 0, 0, 0, //
        0, 0, 0, 0, 0, 0, 0, 0, //
        0, 0, 0, 0, 0, 0, 0, 0,
    ];
    assert_eq!(deck.as_bytes(), expected);
    assert_eq!(CardDeck::from_bytes(&expected), Ok(deck));
}

#[test]
fn user_bytes_are_exact() {
    let user = sample_user();
    let mut expected: Vec<u8> = vec![4, 0, 0, 0, 0, 0, 0, 0, b'z', b'o', 0xc3, 0xab];
    expected.extend_from_slice(&[8, 7, 6, 5, 4, 3, 2, 1]);
    expected.extend_from_slice(&[13, 0, 0, 0, 0, 0, 0, 0]);
    expected.extend_from_slice(b"z@example.com");
    expected.extend_from_slice(&user.password_hash);
    expected.extend_from_slice(&[99, 0, 0, 0, 0, 0, 0, 0]);
    assert_eq!(user.as_bytes(), expected);
    assert_eq!(UserEntry::from_bytes(&expected), Ok(user));
}

#[test]
fn session_round_trip() {
    let session = Session {
        token: "abcdef".to_string(),
        user_id: 5,
        issued_at: 6,
        expires_at: u64::MAX,
    };
    let bytes = session.as_bytes();
    assert_eq!(bytes.len(), 8 + 6 + 24);
    assert_eq!(Session::from_bytes(&bytes), Ok(session));
}

#[test]
fn deck_round_trip_with_many_cards() {
    let mut deck = CardDeck { creation_time: 77, cards: vec![], name: "Größe ✓".to_string() };
    for i in 0..50 {
        deck.cards.push(Card { question: format!("¿{}?", i), answer: "x".repeat(i) });
    }
    let bytes = deck.as_bytes();
    assert_eq!(CardDeck::from_bytes(&bytes), Ok(deck));
}

#[test]
fn truncated_or_extended_bytes_are_corrupt() {
    let bytes = sample_deck().as_bytes();
    for cut in 0..bytes.len() {
        assert_eq!(CardDeck::from_bytes(&bytes[..cut]), Err(AndyError::EncodingCorruption));
    }
    let mut longer = bytes.clone();
    longer.push(0);
    assert_eq!(CardDeck::from_bytes(&longer), Err(AndyError::EncodingCorruption));

    let user = sample_user().as_bytes();
    for cut in 0..user.len() {
        assert_eq!(UserEntry::from_bytes(&user[..cut]), Err(AndyError::EncodingCorruption));
    }
    let mut longer = user.clone();
    longer.push(7);
    assert_eq!(UserEntry::from_bytes(&longer), Err(AndyError::EncodingCorruption));
    assert_eq!(Session::from_bytes(&user), Err(AndyError::EncodingCorruption));
}

#[test]
fn text_that_is_not_utf8_is_corrupt() {
    let mut bytes = sample_deck().as_bytes();
    bytes[16] = 0xff;
    assert_eq!(CardDeck::from_bytes(&bytes), Err(AndyError::EncodingCorruption));
    let mut split = sample_user().as_bytes();
    split[11] = b'x';
    assert_eq!(UserEntry::from_bytes(&split), Err(AndyError::EncodingCorruption));
}

#[test]
fn card_count_beyond_the_bytes_is_corrupt() {
    let mut bytes = sample_deck().as_bytes();
    bytes[18] = 2;
    assert_eq!(CardDeck::from_bytes(&bytes), Err(AndyError::EncodingCorruption));
    bytes[18] = 0;
    assert_eq!(CardDeck::from_bytes(&bytes), Err(AndyError::EncodingCorruption));
    for high in 19..26 {
        let mut huge = sample_deck().as_bytes();
        huge[high] = 0xff;
        assert_eq!(CardDeck::from_bytes(&huge), Err(AndyError::EncodingCorruption));
    }
}

#[test]
fn text_length_beyond_the_bytes_is_corrupt() {
    let mut bytes = sample_deck().as_bytes();
    bytes[15] = 0x80;
    assert_eq!(CardDeck::from_bytes(&bytes), Err(AndyError::EncodingCorruption));
}

#[test]
fn record_types_are_named_and_of_no_fixed_width() {
    assert_eq!(CardDeck::record_type(), "andy_card_deck");
    assert_eq!(UserEntry::record_type(), "andy_user_entry");
    assert_eq!(Session::record_type(), "andy_session");
    assert_eq!(CardDeck::fixed_width(), None);
    assert_eq!(UserEntry::fixed_width(), None);
    assert_eq!(Session::fixed_width(), None);
}

#[test]
fn failures_are_described_by_kind() {
    assert_eq!(AndyError::UserDoesNotExist.describe(), "nonexistant user");
    assert_eq!(AndyError::WrongPassword.describe(), "wrong password");
    assert_eq!(AndyError::BadAccessToken.describe(), "bad access token");
    assert_eq!(AndyError::DeckDoesNotExist.describe(), "nonexistant deck");
    assert_eq!(AndyError::CardIndexOutOfRange.describe(), "card index out of range");
    assert_eq!(AndyError::Conflict.describe(), "name already in use");
    assert_eq!(AndyError::IdentifierCollision.describe(), "identifier collision");
    assert_eq!(AndyError::EncodingCorruption.describe(), "corrupt record");
    assert_eq!(AndyError::IntCast.describe(), "int cast err");
}

#[test]
fn copies_are_equal_and_independent() {
    let deck = sample_deck();
    let mut copy = deck.duplicate();
    assert_eq!(copy, deck);
    copy.cards[0].answer.push('!');
    assert_eq!(deck.cards[0].answer, "a");
    assert_eq!(sample_user().duplicate(), sample_user());
    assert_eq!(deck.cards[0].duplicate(), deck.cards[0]);
}
