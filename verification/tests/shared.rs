use cardstore::hash;
use cardstore::AndyError;
use cardstore::Card;
use cardstore::Database;
use cardstore::SharedDatabase;
use std::sync::Arc;

#[test]
fn concurrent_appends_lose_no_card() {
    let shared = Arc::new(SharedDatabase::new(Database::new()));
    let deck = shared.new_card_deck(1, "Spanish".to_string()).unwrap();
    let callers: usize = 8;
    let each: usize = 50;
    let runtime = tokio::runtime::Builder::new_multi_thread().worker_threads(4).build().unwrap();
    let mut tasks = Vec::new();
    for caller in 0..callers {
        let shared = Arc::clone(&shared);
        tasks.push(runtime.spawn_blocking(move || {
            let mut accepted = 0;
            for i in 0..each {
                let question = format!("q-{}-{}", caller, i);
                let answer = format!("a-{}-{}", caller, i);
                if shared.new_card(1, deck, question, answer) == Ok(()) {
                    accepted += 1;
                }
            }
            accepted
        }));
    }
    let mut accepted = 0;
    for task in tasks {
        accepted += runtime.block_on(task).unwrap();
    }
    assert_eq!(accepted, callers * each);
    let cards = shared.list_cards(1, deck).unwrap().cards;
    assert_eq!(cards.len(), callers * each);
    for caller in 0..callers {
        let mut next = 0;
        for card in &cards {
            if card.question == format!("q-{}-{}", caller, next) {
                assert_eq!(card.answer, format!("a-{}-{}", caller, next));
                next += 1;
            }
        }
        assert_eq!(next, each);
    }
    let mut seen: Vec<&Card> = cards.iter().collect();
    seen.sort_by(|a, b| a.question.cmp(&b.question));
    seen.dedup();
    assert_eq!(seen.len(), callers * each);
}

#[test]
fn shared_store_answers_as_the_store_does() {
    let shared = SharedDatabase::new(Database::new());
    assert_eq!(
        shared.new_user("alice".to_string(), "alice@example.com".to_string(), "pw123".to_string()),
        Ok(())
    );
    assert_eq!(
        shared.new_user("alice".to_string(), "a@example.com".to_string(), "x".to_string()),
        Err(AndyError::Conflict)
    );
    let user = shared.find_user(&"alice".to_string()).unwrap();
    assert_eq!(user.user_id, hash("alice"));
    let answer = shared.login("alice@example.com".to_string(), "pw123".to_string()).unwrap();
    assert_eq!(shared.validate_token(answer.access_token.clone()), Ok(user.user_id));
    let deck = shared.new_card_deck(user.user_id, "Spanish".to_string()).unwrap();
    shared.new_card(user.user_id, deck, "hola".to_string(), "hello".to_string()).unwrap();
    shared.edit_card(user.user_id, deck, 0, "hola".to_string(), "hi".to_string()).unwrap();
    assert_eq!(shared.list_card_decks(user.user_id).unwrap().decks[0].num_cards, 1);
    assert_eq!(shared.delete_card(user.user_id, deck, 1), Err(AndyError::CardIndexOutOfRange));
    shared.delete_card(user.user_id, deck, 0).unwrap();
    assert_eq!(
        shared.change_password(
            "alice@example.com".to_string(),
            "pw123".to_string(),
            "next".to_string()
        ),
        Ok(())
    );
    assert_eq!(shared.logout(answer.access_token.clone()), Ok(()));
    assert_eq!(shared.validate_token(answer.access_token), Err(AndyError::BadAccessToken));
    shared.delete_card_deck(user.user_id, deck).unwrap();
    assert_eq!(shared.list_cards(user.user_id, deck).unwrap_err(), AndyError::DeckDoesNotExist);
    assert_eq!(
        shared.delete_user("alice@example.com".to_string(), "next".to_string()),
        Ok(())
    );
    let store = shared.into_inner();
    assert!(store.find_user(&"alice".to_string()).is_none());
}
